//! The one-dimensional sweeps.
//!
//! Each sweep works on positions in one slice of elements, over parts of it
//! that are sorted by their start along the sweep's axis. It appends the
//! pairs it finds to a list. With `both` set, a pair is appended only if the
//! two elements overlap along the perpendicular axis as well, that is, if
//! they collide.
//!
//! A sweep over one run names the element it has just taken first and the
//! earlier one second. A sweep over two runs names the element of the first
//! run first.

use vstd::prelude::*;
use twounordered::TwoUnorderedVecs;
use crate::active::{
    items_of, lemma_lists_exactly, lemma_lists_joined, lemma_lists_moved, lemma_lists_nothing,
    lemma_lists_same, lemma_pushed, lemma_retained, lists_clear, lists_exactly, push_side, reaches,
    retain_reaching, retain_side, slice_side,
};
use crate::geom::{all_valid, rects_of, sorted_on, Axis, BBox, Range, Rect};
use crate::pairs::{
    exact, extends_by, hits_between, lemma_exact_concat, lemma_extends_chain,
    lemma_extends_from_empty, lemma_extends_none, lemma_extends_push, lemma_extends_same, swept_within,
    Pair,
};
use rayon::join;
use crate::util::PreVec;

verus! {

/// After this many elements in a row from one slice, the sweep over two
/// slices prunes the active list of that slice too.
pub const PRUNE_PERIOD: usize = 100;

/// The positions in `lo..hi` of the elements that end at `bound` or after it
/// along `axis`.
pub open spec fn live(rects: Seq<Rect>, axis: Axis, lo: int, hi: int, bound: int) -> Set<usize> {
    Set::new(|y: usize| lo <= y < hi && rects[y as int].on(axis).end >= bound)
}

/// What a sweep over `lo..hi` leaves in its active list: the positions of the
/// elements that reach the start of the last one.
pub open spec fn live_after(rects: Seq<Rect>, axis: Axis, lo: int, hi: int) -> Set<usize> {
    live(rects, axis, lo, hi, rects[hi - 1].on(axis).start as int)
}

/// The pairs that one element owes with the listed ones: `cur` paired with
/// each position of `items`, `cur` first if `cur_first` is set, second
/// otherwise.
pub open spec fn owed(
    rects: Seq<Rect>,
    axis: Axis,
    both: bool,
    items: Seq<usize>,
    cur: usize,
    cur_first: bool,
) -> Set<Pair> {
    Set::new(
        |p: Pair|
            if cur_first {
                p.0 == cur && items.contains(p.1) && (both ==> rects[p.0 as int].on(axis.perp()).overlaps(
                    rects[p.1 as int].on(axis.perp()),
                ))
            } else {
                p.1 == cur && items.contains(p.0) && (both ==> rects[p.0 as int].on(axis.perp()).overlaps(
                    rects[p.1 as int].on(axis.perp()),
                ))
            },
    )
}

/// Pairs `cur` with every listed element, and appends the pair unless `both`
/// is set and the two do not overlap along the perpendicular axis.
fn report<T>(
    items: &[usize],
    elems: &[BBox<T>],
    axis: Axis,
    both: bool,
    cur: usize,
    cur_first: bool,
    out: &mut Vec<Pair>,
)
    requires
        items@.no_duplicates(),
        forall|k: int| 0 <= k < items@.len() ==> items@[k] < elems@.len(),
        cur < elems@.len(),
    ensures
        extends_by(old(out)@, final(out)@, owed(rects_of(elems@), axis, both, items@, cur, cur_first)),
{
    let ghost rects = rects_of(elems@);
    let ghost before = out@;
    let perp = axis.next();
    let mut k: usize = 0;
    proof {
        lemma_extends_none(before);
        assert(items@.take(0).len() == 0);
        lemma_extends_same(
            before,
            out@,
            Set::empty(),
            owed(rects, axis, both, items@.take(0), cur, cur_first),
        );
    }
    while k < items.len()
        invariant
            k <= items@.len(),
            items@.no_duplicates(),
            forall|j: int| 0 <= j < items@.len() ==> items@[j] < elems@.len(),
            cur < elems@.len(),
            rects == rects_of(elems@),
            perp == axis.perp(),
            extends_by(before, out@, owed(rects, axis, both, items@.take(k as int), cur, cur_first)),
        decreases items@.len() - k,
    {
        let y: usize = items[k];
        let ghost done = items@.take(k as int);
        let ghost next = items@.take(k + 1);
        let ghost mid = out@;
        let pair: Pair = if cur_first {
            (cur, y)
        } else {
            (y, cur)
        };
        let wanted = !both || elems[cur].rect.get_range(perp).intersects(elems[y].rect.get_range(perp));
        proof {
            assert(next =~= done.push(y));
            assert(!done.contains(y)) by {
                if done.contains(y) {
                    let j = choose|j: int| 0 <= j < done.len() && done[j] == y;
                    assert(items@[j] == items@[k as int]);
                }
            }
            assert forall|q: usize| next.contains(q) <==> (done.contains(q) || q == y) by {
                if next.contains(q) {
                    let j = choose|j: int| 0 <= j < next.len() && next[j] == q;
                    if j < k {
                        assert(done[j] == q);
                    }
                }
                if done.contains(q) {
                    let j = choose|j: int| 0 <= j < done.len() && done[j] == q;
                    assert(next[j] == q);
                }
                assert(next[k as int] == y);
            }
        }
        if wanted {
            out.push(pair);
            proof {
                lemma_extends_push(mid, pair);
                let a = owed(rects, axis, both, done, cur, cur_first);
                assert(!a.contains(pair));
                assert(a.disjoint(set![pair]));
                lemma_extends_chain(before, mid, out@, a, set![pair]);
                lemma_extends_same(
                    before,
                    out@,
                    a.union(set![pair]),
                    owed(rects, axis, both, next, cur, cur_first),
                );
            }
        } else {
            proof {
                lemma_extends_same(
                    before,
                    out@,
                    owed(rects, axis, both, done, cur, cur_first),
                    owed(rects, axis, both, next, cur, cur_first),
                );
            }
        }
        k += 1;
    }
    proof {
        assert(items@.take(items@.len() as int) =~= items@);
    }
}

/// The sweep over one sorted slice, with an active list that it leaves
/// filled, for a sweep that goes on from there.
///
/// Appends to `out` each pair `(j, i)` with `lo <= i < j < hi` whose elements
/// overlap along `axis` (and along the other axis too if `both` is set),
/// once: the element that the sweep has just taken comes first. The active
/// list is emptied first; at the end it holds the positions of the elements
/// that reach the start of the last one.
pub fn find_iter_leave<T>(
    active: &mut Vec<usize>,
    axis: Axis,
    elems: &[BBox<T>],
    lo: usize,
    hi: usize,
    both: bool,
    out: &mut Vec<Pair>,
)
    requires
        lo <= hi <= elems@.len(),
        all_valid(rects_of(elems@)),
        sorted_on(rects_of(elems@), axis, lo as int, hi as int),
    ensures
        extends_by(old(out)@, final(out)@, swept_within(rects_of(elems@), axis, both, lo as int, hi as int)),
        lists_exactly(final(active)@, live_after(rects_of(elems@), axis, lo as int, hi as int)),
{
    let ghost rects = rects_of(elems@);
    let ghost before = out@;
    active.clear();
    let mut c: usize = lo;
    proof {
        lemma_lists_nothing(active@);
        lemma_lists_same(active@, Set::empty(), live_after(rects, axis, lo as int, lo as int));
        lemma_extends_none(before);
        lemma_extends_same(before, out@, Set::empty(), swept_within(rects, axis, both, lo as int, lo as int));
    }
    while c < hi
        invariant
            lo <= c <= hi <= elems@.len(),
            rects == rects_of(elems@),
            all_valid(rects),
            sorted_on(rects, axis, lo as int, hi as int),
            lists_exactly(active@, live_after(rects, axis, lo as int, c as int)),
            extends_by(before, out@, swept_within(rects, axis, both, lo as int, c as int)),
        decreases hi - c,
    {
        let bound: i64 = elems[c].rect.get_range(axis).start;
        let ghost listed = active@;
        let ghost mid = out@;
        retain_reaching(active, elems, axis, bound);
        proof {
            let was = live_after(rects, axis, lo as int, c as int);
            lemma_retained(listed, active@, was, rects, axis, bound);
            let kept = live(rects, axis, lo as int, c as int, bound as int);
            assert forall|y: usize|
                was.filter(|y: usize| reaches(rects, axis, y, bound)).contains(y) <==> kept.contains(y) by {
                if kept.contains(y) {
                    assert(rects[c - 1].on(axis).start <= rects[c as int].on(axis).start);
                }
            }
            lemma_lists_same(active@, was.filter(|y: usize| reaches(rects, axis, y, bound)), kept);
            lemma_lists_exactly(active@, kept);
        }
        report(active.as_slice(), elems, axis, both, c, true, out);
        proof {
            let kept = live(rects, axis, lo as int, c as int, bound as int);
            let a = swept_within(rects, axis, both, lo as int, c as int);
            let b = owed(rects, axis, both, active@, c, true);
            assert(a.disjoint(b));
            lemma_extends_chain(before, mid, out@, a, b);
            assert forall|p: Pair|
                a.union(b).contains(p) <==> swept_within(rects, axis, both, lo as int, c + 1).contains(p) by {
                if lo <= p.1 < c && p.0 == c {
                    assert(rects[p.1 as int].on(axis).start <= rects[c as int].on(axis).start);
                    assert(rects[c as int].valid());
                    assert(active@.contains(p.1) <==> kept.contains(p.1));
                }
            }
            lemma_extends_same(
                before,
                out@,
                a.union(b),
                swept_within(rects, axis, both, lo as int, c + 1),
            );
        }
        let ghost pruned = active@;
        active.push(c);
        proof {
            broadcast use vstd::seq_lib::to_multiset_build;

            let kept = live(rects, axis, lo as int, c as int, bound as int);
            lemma_pushed(pruned, active@, kept, c);
            assert(rects[c as int].valid());
            lemma_lists_same(active@, kept.insert(c), live_after(rects, axis, lo as int, c + 1));
        }
        c += 1;
    }
}

/// The sweep over one sorted slice.
///
/// Appends to `out` each pair `(j, i)` with `lo <= i < j < hi` whose elements
/// overlap along `axis` (and along the other axis too if `both` is set),
/// once: the element that the sweep has just taken comes first. The active
/// list is emptied first, and cleared at the end of the input.
pub fn find_iter<T>(
    active: &mut Vec<usize>,
    axis: Axis,
    elems: &[BBox<T>],
    lo: usize,
    hi: usize,
    both: bool,
    out: &mut Vec<Pair>,
)
    requires
        lo <= hi <= elems@.len(),
        all_valid(rects_of(elems@)),
        sorted_on(rects_of(elems@), axis, lo as int, hi as int),
    ensures
        extends_by(old(out)@, final(out)@, swept_within(rects_of(elems@), axis, both, lo as int, hi as int)),
        final(active)@.len() == 0,
{
    find_iter_leave(active, axis, elems, lo, hi, both, out);
    active.clear();
}

/// What the sweep over two slices knows of one of them: `set` is the active
/// list of the slice `lo..`, of which `lo..i` has been taken, and `j..hj` is
/// what is left of the other slice.
///
/// The active list holds only elements that were taken; an element that was
/// taken and is not in the list ends before anything that is left of the
/// other slice starts; and nothing that was taken starts after what is left
/// of the other slice.
pub open spec fn side_swept(
    rects: Seq<Rect>,
    axis: Axis,
    lo: int,
    i: int,
    set: Set<usize>,
    j: int,
    hj: int,
) -> bool {
    &&& forall|x: usize| set.contains(x) ==> lo <= x < i
    &&& forall|x: int|
        lo <= x < i && !set.contains(x as usize) && j < hj ==> (#[trigger] rects[x]).on(axis).end
            < rects[j].on(axis).start
    &&& forall|x: int| lo <= x < i && j < hj ==> (#[trigger] rects[x]).on(axis).start <= rects[j].on(axis).start
}

/// One step of the sweep over two slices, seen from the slice that the next
/// element `i` is taken from ("a"; the other is "b").
proof fn lemma_step(
    rects: Seq<Rect>,
    axis: Axis,
    lo_a: int,
    i: int,
    hi_a: int,
    set_a: Set<usize>,
    lo_b: int,
    j: int,
    hi_b: int,
    set_b: Set<usize>,
    prune: bool,
)
    requires
        0 <= lo_a <= i < hi_a <= rects.len(),
        0 <= lo_b <= j <= hi_b <= rects.len(),
        rects.len() <= usize::MAX,
        all_valid(rects),
        sorted_on(rects, axis, lo_a, hi_a),
        sorted_on(rects, axis, lo_b, hi_b),
        side_swept(rects, axis, lo_a, i, set_a, j, hi_b),
        side_swept(rects, axis, lo_b, j, set_b, i, hi_a),
        j < hi_b ==> rects[i].on(axis).start <= rects[j].on(axis).start,
    ensures
        ({
            let bound = rects[i].on(axis).start;
            let keep = |y: usize| reaches(rects, axis, y, bound);
            let new_b = set_b.filter(keep);
            let new_a = (if prune {
                set_a.filter(keep)
            } else {
                set_a
            }).insert(i as usize);
            &&& side_swept(rects, axis, lo_a, i + 1, new_a, j, hi_b)
            &&& side_swept(rects, axis, lo_b, j, new_b, i + 1, hi_a)
            &&& forall|y: usize|
                lo_b <= y < j ==> (new_b.contains(y) <==> rects[i].on(axis).overlaps(rects[y as int].on(axis)))
            &&& forall|y: usize| new_b.contains(y) ==> lo_b <= y < j
        }),
{
    let bound = rects[i].on(axis).start;
    let keep = |y: usize| reaches(rects, axis, y, bound);
    let new_b = set_b.filter(keep);
    let new_a = (if prune {
        set_a.filter(keep)
    } else {
        set_a
    }).insert(i as usize);
    assert(rects[i].valid());
    assert forall|x: int| lo_a <= x < i + 1 && !new_a.contains(x as usize) && j < hi_b implies (#[trigger] rects[x]).on(
        axis,
    ).end < rects[j].on(axis).start by {
        assert(x != i);
        if set_a.contains(x as usize) {
            assert(!keep(x as usize));
        }
    }
    assert forall|x: int| lo_a <= x < i + 1 && j < hi_b implies (#[trigger] rects[x]).on(axis).start <= rects[j].on(
        axis,
    ).start by {}
    assert forall|y: int| lo_b <= y < j && !new_b.contains(y as usize) && i + 1 < hi_a implies (#[trigger] rects[y]).on(
        axis,
    ).end < rects[i + 1].on(axis).start by {
        assert(rects[i].on(axis).start <= rects[i + 1].on(axis).start);
        if set_b.contains(y as usize) {
            assert(!keep(y as usize));
        }
    }
    assert forall|y: int| lo_b <= y < j && i + 1 < hi_a implies (#[trigger] rects[y]).on(axis).start <= rects[i
        + 1].on(axis).start by {
        assert(rects[i].on(axis).start <= rects[i + 1].on(axis).start);
    }
    assert forall|y: usize| lo_b <= y < j implies (new_b.contains(y) <==> rects[i].on(axis).overlaps(
        rects[y as int].on(axis),
    )) by {
        assert(rects[y as int].on(axis).start <= rects[i].on(axis).start);
        if !set_b.contains(y) {
            assert(rects[y as int].on(axis).end < rects[i].on(axis).start);
        }
    }
}

/// Takes the element at `cur` from one of the two slices: prunes the other
/// slice's active list by the start of `cur`, pairs `cur` with what is left
/// in it, prunes the own list too if `prune` is set, and adds `cur` to it.
fn advance<T>(
    lists: &mut TwoUnorderedVecs<Vec<usize>>,
    elems: &[BBox<T>],
    axis: Axis,
    both: bool,
    cur: usize,
    from_first: bool,
    prune: bool,
    out: &mut Vec<Pair>,
    Ghost(own): Ghost<Set<usize>>,
    Ghost(other): Ghost<Set<usize>>,
)
    requires
        cur < elems@.len(),
        lists_exactly(items_of(*old(lists), from_first), own),
        lists_exactly(items_of(*old(lists), !from_first), other),
        !own.contains(cur),
    ensures
        ({
            let rects = rects_of(elems@);
            let bound = rects[cur as int].on(axis).start;
            let keep = |y: usize| reaches(rects, axis, y, bound);
            let new_own = (if prune {
                own.filter(keep)
            } else {
                own
            }).insert(cur);
            &&& lists_exactly(items_of(*final(lists), from_first), new_own)
            &&& lists_exactly(items_of(*final(lists), !from_first), other.filter(keep))
            &&& exists|items: Seq<usize>|
                {
                    &&& (forall|y: usize| items.contains(y) <==> other.filter(keep).contains(y))
                    &&& extends_by(
                        old(out)@,
                        final(out)@,
                        owed(rects, axis, both, items, cur, from_first),
                    )
                }
        }),
{
    let ghost rects = rects_of(elems@);
    let bound: i64 = elems[cur].rect.get_range(axis).start;
    let ghost keep = |y: usize| reaches(rects, axis, y, bound);
    let ghost l0 = *lists;
    retain_side(lists, !from_first, elems, axis, bound);
    let ghost l1 = *lists;
    proof {
        lemma_retained(items_of(l0, !from_first), items_of(l1, !from_first), other, rects, axis, bound);
        lemma_lists_moved(items_of(l0, from_first), items_of(l1, from_first), own);
        lemma_lists_exactly(items_of(l1, !from_first), other.filter(keep));
    }
    let ghost items = items_of(l1, !from_first);
    report(slice_side(lists, !from_first), elems, axis, both, cur, from_first, out);
    if prune {
        retain_side(lists, from_first, elems, axis, bound);
    }
    let ghost l2 = *lists;
    let ghost pruned = if prune {
        own.filter(keep)
    } else {
        own
    };
    proof {
        if prune {
            lemma_retained(items_of(l1, from_first), items_of(l2, from_first), own, rects, axis, bound);
            lemma_lists_moved(items_of(l1, !from_first), items_of(l2, !from_first), other.filter(keep));
        }
    }
    push_side(lists, from_first, cur);
    proof {
        lemma_pushed(items_of(l2, from_first), items_of(*lists, from_first), pruned, cur);
        lemma_lists_moved(items_of(l2, !from_first), items_of(*lists, !from_first), other.filter(keep));
    }
}

/// The sweep over two sorted slices.
///
/// Appends to `out` each pair `(i, j)`, with `i` in `first` and `j` in
/// `second`, whose elements overlap along `axis` (and along the other axis
/// too if `both` is set), once. It repeatedly takes, of the two elements that
/// come next, the one that starts first, and stops as soon as one slice is
/// used up and the other slice's active list is empty.
pub fn find_other_parallel3<T>(
    lists: &mut TwoUnorderedVecs<Vec<usize>>,
    axis: Axis,
    elems: &[BBox<T>],
    first: (usize, usize),
    second: (usize, usize),
    both: bool,
    out: &mut Vec<Pair>,
)
    requires
        first.0 <= first.1 <= elems@.len(),
        second.0 <= second.1 <= elems@.len(),
        all_valid(rects_of(elems@)),
        sorted_on(rects_of(elems@), axis, first.0 as int, first.1 as int),
        sorted_on(rects_of(elems@), axis, second.0 as int, second.1 as int),
    ensures
        extends_by(
            old(out)@,
            final(out)@,
            hits_between(
                rects_of(elems@),
                axis,
                both,
                first.0 as int,
                first.1 as int,
                second.0 as int,
                second.1 as int,
            ),
        ),
{
    let ghost rects = rects_of(elems@);
    let ghost before = out@;
    let (lo1, hi1) = first;
    let (lo2, hi2) = second;
    let len: usize = elems.len();
    lists_clear(lists);
    let mut i1: usize = lo1;
    let mut i2: usize = lo2;
    let mut xcounter: usize = 0;
    let mut ycounter: usize = 0;
    let ghost mut set1: Set<usize> = Set::empty();
    let ghost mut set2: Set<usize> = Set::empty();
    proof {
        lemma_lists_nothing(items_of(*lists, true));
        lemma_lists_nothing(items_of(*lists, false));
        lemma_extends_none(before);
        lemma_extends_same(
            before,
            out@,
            Set::empty(),
            hits_between(rects, axis, both, lo1 as int, lo1 as int, lo2 as int, lo2 as int),
        );
    }
    loop
        invariant_except_break
            lo1 <= i1 <= hi1 <= elems@.len(),
            lo2 <= i2 <= hi2 <= elems@.len(),
            xcounter <= PRUNE_PERIOD + 1,
            ycounter <= PRUNE_PERIOD + 1,
            lists_exactly(items_of(*lists, true), set1),
            lists_exactly(items_of(*lists, false), set2),
            side_swept(rects, axis, lo1 as int, i1 as int, set1, i2 as int, hi2 as int),
            side_swept(rects, axis, lo2 as int, i2 as int, set2, i1 as int, hi1 as int),
            extends_by(
                before,
                out@,
                hits_between(rects, axis, both, lo1 as int, i1 as int, lo2 as int, i2 as int),
            ),
        invariant
            rects == rects_of(elems@),
            rects.len() == len,
            all_valid(rects),
            sorted_on(rects, axis, lo1 as int, hi1 as int),
            sorted_on(rects, axis, lo2 as int, hi2 as int),
        ensures
            extends_by(
                before,
                out@,
                hits_between(rects, axis, both, lo1 as int, hi1 as int, lo2 as int, hi2 as int),
            ),
        decreases (hi1 - i1) + (hi2 - i2),
    {
        let ghost done = hits_between(rects, axis, both, lo1 as int, i1 as int, lo2 as int, i2 as int);
        let ghost all = hits_between(rects, axis, both, lo1 as int, hi1 as int, lo2 as int, hi2 as int);
        let take_first: bool;
        if i1 < hi1 {
            if i2 < hi2 {
                take_first = elems[i1].rect.get_range(axis).start < elems[i2].rect.get_range(axis).start;
            } else {
                if slice_side(lists, false).len() == 0 {
                    proof {
                        lemma_lists_exactly(items_of(*lists, false), set2);
                        assert forall|p: Pair| done.contains(p) <==> all.contains(p) by {
                            if all.contains(p) && p.0 >= i1 {
                                assert(!items_of(*lists, false).contains(p.1));
                                assert(rects[p.1 as int].on(axis).end < rects[i1 as int].on(axis).start);
                                assert(rects[i1 as int].on(axis).start <= rects[p.0 as int].on(axis).start);
                            }
                        }
                        lemma_extends_same(before, out@, done, all);
                    }
                    break ;
                }
                take_first = true;
            }
        } else if i2 < hi2 {
            if slice_side(lists, true).len() == 0 {
                proof {
                    lemma_lists_exactly(items_of(*lists, true), set1);
                    assert forall|p: Pair| done.contains(p) <==> all.contains(p) by {
                        if all.contains(p) && p.1 >= i2 {
                            assert(!items_of(*lists, true).contains(p.0));
                            assert(rects[p.0 as int].on(axis).end < rects[i2 as int].on(axis).start);
                            assert(rects[i2 as int].on(axis).start <= rects[p.1 as int].on(axis).start);
                        }
                    }
                    lemma_extends_same(before, out@, done, all);
                }
                break ;
            }
            take_first = false;
        } else {
            proof {
                lemma_extends_same(before, out@, done, all);
            }
            break ;
        }
        let ghost mid = out@;
        if take_first {
            let prune = xcounter > PRUNE_PERIOD;
            proof {
                lemma_step(
                    rects,
                    axis,
                    lo1 as int,
                    i1 as int,
                    hi1 as int,
                    set1,
                    lo2 as int,
                    i2 as int,
                    hi2 as int,
                    set2,
                    prune,
                );
            }
            advance(lists, elems, axis, both, i1, true, prune, out, Ghost(set1), Ghost(set2));
            proof {
                let bound = rects[i1 as int].on(axis).start;
                let keep = |y: usize| reaches(rects, axis, y, bound);
                let items = choose|items: Seq<usize>|
                    {
                        &&& (forall|y: usize| items.contains(y) <==> set2.filter(keep).contains(y))
                        &&& extends_by(mid, out@, owed(rects, axis, both, items, i1, true))
                    };
                let new = owed(rects, axis, both, items, i1, true);
                let next = hits_between(rects, axis, both, lo1 as int, i1 + 1, lo2 as int, i2 as int);
                assert(done.disjoint(new));
                lemma_extends_chain(before, mid, out@, done, new);
                assert forall|p: Pair| done.union(new).contains(p) <==> next.contains(p) by {
                    if p.0 == i1 {
                        assert(items.contains(p.1) <==> set2.filter(keep).contains(p.1));
                    }
                }
                lemma_extends_same(before, out@, done.union(new), next);
                set1 = (if prune {
                    set1.filter(keep)
                } else {
                    set1
                }).insert(i1);
                set2 = set2.filter(keep);
            }
            ycounter = 0;
            if prune {
                xcounter = 0;
            } else {
                xcounter += 1;
            }
            i1 += 1;
        } else {
            let prune = ycounter > PRUNE_PERIOD;
            proof {
                lemma_step(
                    rects,
                    axis,
                    lo2 as int,
                    i2 as int,
                    hi2 as int,
                    set2,
                    lo1 as int,
                    i1 as int,
                    hi1 as int,
                    set1,
                    prune,
                );
            }
            advance(lists, elems, axis, both, i2, false, prune, out, Ghost(set2), Ghost(set1));
            proof {
                let bound = rects[i2 as int].on(axis).start;
                let keep = |y: usize| reaches(rects, axis, y, bound);
                let items = choose|items: Seq<usize>|
                    {
                        &&& (forall|y: usize| items.contains(y) <==> set1.filter(keep).contains(y))
                        &&& extends_by(mid, out@, owed(rects, axis, both, items, i2, false))
                    };
                let new = owed(rects, axis, both, items, i2, false);
                let next = hits_between(rects, axis, both, lo1 as int, i1 as int, lo2 as int, i2 + 1);
                assert(done.disjoint(new));
                lemma_extends_chain(before, mid, out@, done, new);
                assert forall|p: Pair| done.union(new).contains(p) <==> next.contains(p) by {
                    if p.1 == i2 {
                        assert(items.contains(p.0) <==> set1.filter(keep).contains(p.0));
                    }
                }
                lemma_extends_same(before, out@, done.union(new), next);
                set2 = (if prune {
                    set2.filter(keep)
                } else {
                    set2
                }).insert(i2);
                set1 = set1.filter(keep);
            }
            xcounter = 0;
            if prune {
                ycounter = 0;
            } else {
                ycounter += 1;
            }
            i2 += 1;
        }
    }
}

/// Continues a sweep over `lo..mid` into `mid..hi` without adding the
/// elements of `mid..hi` to the active list.
///
/// The active list is what the sweep over `lo..mid` left. Appends to `out`
/// each pair `(j, i)` with `j` in `mid..hi` and `i` in `lo..mid` that hits,
/// once: the element that the sweep has just taken comes first. It leaves in
/// the active list the positions in `lo..mid` of the elements that reach the
/// start of the last element of `lo..hi`.
pub fn find_iter_no_add<T>(
    active: &mut Vec<usize>,
    axis: Axis,
    elems: &[BBox<T>],
    lo: usize,
    mid: usize,
    hi: usize,
    both: bool,
    out: &mut Vec<Pair>,
)
    requires
        lo <= mid <= hi <= elems@.len(),
        all_valid(rects_of(elems@)),
        sorted_on(rects_of(elems@), axis, lo as int, hi as int),
        lists_exactly(old(active)@, live_after(rects_of(elems@), axis, lo as int, mid as int)),
    ensures
        extends_by(
            old(out)@,
            final(out)@,
            hits_between(rects_of(elems@), axis, both, mid as int, hi as int, lo as int, mid as int),
        ),
        lists_exactly(
            final(active)@,
            live(
                rects_of(elems@),
                axis,
                lo as int,
                mid as int,
                rects_of(elems@)[hi - 1].on(axis).start as int,
            ),
        ),
{
    let ghost rects = rects_of(elems@);
    let ghost before = out@;
    let ghost all = hits_between(rects, axis, both, mid as int, hi as int, lo as int, mid as int);
    let mut c: usize = mid;
    proof {
        lemma_extends_none(before);
        lemma_extends_same(
            before,
            out@,
            Set::empty(),
            hits_between(rects, axis, both, mid as int, mid as int, lo as int, mid as int),
        );
    }
    while c < hi
        invariant_except_break
            lo <= mid <= c <= hi <= elems@.len(),
            lists_exactly(active@, live(rects, axis, lo as int, mid as int, rects[c - 1].on(axis).start as int)),
            extends_by(
                before,
                out@,
                hits_between(rects, axis, both, mid as int, c as int, lo as int, mid as int),
            ),
        invariant
            lo <= mid <= hi <= elems@.len(),
            rects == rects_of(elems@),
            all_valid(rects),
            sorted_on(rects, axis, lo as int, hi as int),
            all == hits_between(rects, axis, both, mid as int, hi as int, lo as int, mid as int),
        ensures
            extends_by(before, out@, all),
            lists_exactly(active@, live(rects, axis, lo as int, mid as int, rects[hi - 1].on(axis).start as int)),
        decreases hi - c,
    {
        let ghost was = live(rects, axis, lo as int, mid as int, rects[c - 1].on(axis).start as int);
        let ghost done = hits_between(rects, axis, both, mid as int, c as int, lo as int, mid as int);
        if active.len() == 0 {
            proof {
                lemma_lists_exactly(active@, was);
                assert forall|y: usize| mid > lo && lo <= y < mid implies rects[y as int].on(axis).end < rects[c
                    - 1].on(axis).start by {
                    assert(!active@.contains(y));
                }
                assert forall|p: Pair| done.contains(p) <==> all.contains(p) by {
                    if all.contains(p) && p.0 >= c {
                        assert(rects[c - 1].on(axis).start <= rects[p.0 as int].on(axis).start);
                    }
                }
                lemma_extends_same(before, out@, done, all);
                if mid > lo {
                    assert(rects[c - 1].on(axis).start <= rects[hi - 1].on(axis).start);
                }
                lemma_lists_same(
                    active@,
                    was,
                    live(rects, axis, lo as int, mid as int, rects[hi - 1].on(axis).start as int),
                );
            }
            break ;
        }
        let bound: i64 = elems[c].rect.get_range(axis).start;
        let ghost listed = active@;
        let ghost between = out@;
        retain_reaching(active, elems, axis, bound);
        let ghost kept = live(rects, axis, lo as int, mid as int, bound as int);
        proof {
            lemma_retained(listed, active@, was, rects, axis, bound);
            assert forall|y: usize|
                was.filter(|y: usize| reaches(rects, axis, y, bound)).contains(y) <==> kept.contains(y) by {
                if kept.contains(y) {
                    assert(rects[c - 1].on(axis).start <= rects[c as int].on(axis).start);
                }
            }
            lemma_lists_same(active@, was.filter(|y: usize| reaches(rects, axis, y, bound)), kept);
            lemma_lists_exactly(active@, kept);
        }
        report(active.as_slice(), elems, axis, both, c, true, out);
        proof {
            let new = owed(rects, axis, both, active@, c, true);
            let next = hits_between(rects, axis, both, mid as int, c + 1, lo as int, mid as int);
            assert(done.disjoint(new));
            lemma_extends_chain(before, between, out@, done, new);
            assert forall|p: Pair| done.union(new).contains(p) <==> next.contains(p) by {
                if lo <= p.1 < mid && p.0 == c {
                    assert(rects[p.1 as int].on(axis).start <= rects[c as int].on(axis).start);
                    assert(rects[c as int].valid());
                    assert(active@.contains(p.1) <==> kept.contains(p.1));
                }
            }
            lemma_extends_same(before, out@, done.union(new), next);
        }
        c += 1;
    }
}

/// A sweep over two sorted slices that is ready to run.
pub struct FindParallel2DBuilder<'a, 'b, T> {
    /// The buffer for the two active lists.
    pub prevec: &'b mut TwoUnorderedVecs<Vec<usize>>,
    /// The axis along which both slices are sorted.
    pub axis: Axis,
    /// The storage that the positions are in.
    pub elems: &'a [BBox<T>],
    /// The first slice: the positions from `bots1.0` up to `bots1.1`.
    pub bots1: (usize, usize),
    /// The second slice.
    pub bots2: (usize, usize),
}

impl<'a, 'b, T> FindParallel2DBuilder<'a, 'b, T> {
    pub fn new(
        prevec: &'b mut TwoUnorderedVecs<Vec<usize>>,
        axis: Axis,
        elems: &'a [BBox<T>],
        bots1: (usize, usize),
        bots2: (usize, usize),
    ) -> (r: Self)
        ensures
            r.axis == axis,
            r.elems == elems,
            r.bots1 == bots1,
            r.bots2 == bots2,
    {
        FindParallel2DBuilder { prevec, axis, elems, bots1, bots2 }
    }

    /// Runs the sweep: appends to `out` the pairs of an element of the first
    /// slice with an element of the second that overlap along the axis, each
    /// once. Whether the two overlap along the other axis is left to the
    /// caller.
    pub fn build(self, out: &mut Vec<Pair>)
        requires
            self.bots1.0 <= self.bots1.1 <= self.elems@.len(),
            self.bots2.0 <= self.bots2.1 <= self.elems@.len(),
            all_valid(rects_of(self.elems@)),
            sorted_on(rects_of(self.elems@), self.axis, self.bots1.0 as int, self.bots1.1 as int),
            sorted_on(rects_of(self.elems@), self.axis, self.bots2.0 as int, self.bots2.1 as int),
        ensures
            extends_by(
                old(out)@,
                final(out)@,
                hits_between(
                    rects_of(self.elems@),
                    self.axis,
                    false,
                    self.bots1.0 as int,
                    self.bots1.1 as int,
                    self.bots2.0 as int,
                    self.bots2.1 as int,
                ),
            ),
    {
        find_other_parallel3(self.prevec, self.axis, self.elems, self.bots1, self.bots2, false, out);
    }
}

/// The sweep of one element over a sorted slice.
///
/// Appends to `out` each pair `(y, j)`, with `j` in `lo..hi`, whose elements
/// overlap along `axis` (and along the other axis too if `both` is set),
/// once, in the order of the slice. It stops at the first element that
/// starts after `y` ends.
pub fn find_perp_2d1_once<T>(
    axis: Axis,
    y: usize,
    elems: &[BBox<T>],
    lo: usize,
    hi: usize,
    both: bool,
    out: &mut Vec<Pair>,
)
    requires
        y < elems@.len(),
        lo <= hi <= elems@.len(),
        sorted_on(rects_of(elems@), axis, lo as int, hi as int),
    ensures
        extends_by(
            old(out)@,
            final(out)@,
            hits_between(rects_of(elems@), axis, both, y as int, y + 1, lo as int, hi as int),
        ),
        forall|a: int, b: int|
            old(out)@.len() <= a < b < final(out)@.len() ==> (#[trigger] final(out)@[a]).1 < (
            #[trigger] final(out)@[b]).1,
{
    let ghost rects = rects_of(elems@);
    let ghost before = out@;
    let ghost all = hits_between(rects, axis, both, y as int, y + 1, lo as int, hi as int);
    let perp = axis.next();
    let mine: Range = elems[y].rect.on_axis(axis);
    let mut c: usize = lo;
    proof {
        lemma_extends_none(before);
        lemma_extends_same(
            before,
            out@,
            Set::empty(),
            hits_between(rects, axis, both, y as int, y + 1, lo as int, lo as int),
        );
    }
    while c < hi
        invariant_except_break
            lo <= c <= hi,
            extends_by(before, out@, hits_between(rects, axis, both, y as int, y + 1, lo as int, c as int)),
        invariant
            before.len() <= out@.len(),
            forall|a: int| before.len() <= a < out@.len() ==> (#[trigger] out@[a]).1 < c,
            forall|a: int, b: int|
                before.len() <= a < b < out@.len() ==> (#[trigger] out@[a]).1 < (#[trigger] out@[b]).1,
            y < elems@.len(),
            lo <= hi <= elems@.len(),
            rects == rects_of(elems@),
            sorted_on(rects, axis, lo as int, hi as int),
            perp == axis.perp(),
            mine == rects[y as int].on(axis),
            all == hits_between(rects, axis, both, y as int, y + 1, lo as int, hi as int),
        ensures
            extends_by(before, out@, all),
        decreases hi - c,
    {
        let ghost done = hits_between(rects, axis, both, y as int, y + 1, lo as int, c as int);
        let ghost next = hits_between(rects, axis, both, y as int, y + 1, lo as int, c + 1);
        let other: Range = elems[c].rect.on_axis(axis);
        if mine.end < other.start {
            proof {
                assert forall|p: Pair| done.contains(p) <==> all.contains(p) by {
                    if all.contains(p) && p.1 >= c {
                        assert(rects[c as int].on(axis).start <= rects[p.1 as int].on(axis).start);
                    }
                }
                lemma_extends_same(before, out@, done, all);
            }
            break ;
        }
        if mine.start <= other.end && (!both || elems[y].rect.get_range(perp).intersects(
            elems[c].rect.get_range(perp),
        )) {
            let ghost between = out@;
            out.push((y, c));
            proof {
                lemma_extends_push(between, (y, c));
                assert(done.disjoint(set![(y, c)]));
                lemma_extends_chain(before, between, out@, done, set![(y, c)]);
                lemma_extends_same(before, out@, done.union(set![(y, c)]), next);
            }
        } else {
            proof {
                lemma_extends_same(before, out@, done, next);
            }
        }
        c += 1;
    }
}

/// The sweep over one sorted slice, with a reusable buffer for its active
/// list.
///
/// Appends to `out` each pair `(j, i)` with `lo <= i < j < hi` whose elements
/// overlap along `axis` (and along the other axis too if `check_y` is set),
/// once: the element that the sweep has just taken comes first. The active
/// list is cleared at the end and goes back into the buffer.
pub fn find_2d<T>(
    prevec1: &mut PreVec,
    axis: Axis,
    elems: &[BBox<T>],
    lo: usize,
    hi: usize,
    check_y: bool,
    out: &mut Vec<Pair>,
)
    requires
        lo <= hi <= elems@.len(),
        all_valid(rects_of(elems@)),
        sorted_on(rects_of(elems@), axis, lo as int, hi as int),
    ensures
        extends_by(
            old(out)@,
            final(out)@,
            swept_within(rects_of(elems@), axis, check_y, lo as int, hi as int),
        ),
        final(prevec1)@.len() == 0,
{
    let mut active = prevec1.extract_vec();
    find_iter(&mut active, axis, elems, lo, hi, check_y, out);
    prevec1.insert_vec(active);
}

/// Below this many elements the parallel sweep works on one thread.
pub const PAR_SWEEP_CUTOFF: usize = 5000;

/// The sweep over one sorted slice, on several threads.
///
/// Returns the active list that the sweep leaves and the list of the pairs
/// `(j, i)` with `lo <= i < j < hi` whose elements overlap along `axis` (and
/// along the other axis too if `both` is set), each once, the later element
/// first. A slice of
/// `PAR_SWEEP_CUTOFF` elements or more is halved: the halves are swept side
/// by side, and the sweep of the first half is then continued into the
/// second.
pub fn find_par<T: Send + Sync>(axis: Axis, elems: &[BBox<T>], lo: usize, hi: usize, both: bool) -> (r: (
    Vec<usize>,
    Vec<Pair>,
))
    requires
        lo <= hi <= elems@.len(),
        all_valid(rects_of(elems@)),
        sorted_on(rects_of(elems@), axis, lo as int, hi as int),
    ensures
        lists_exactly(r.0@, live_after(rects_of(elems@), axis, lo as int, hi as int)),
        exact(r.1@, swept_within(rects_of(elems@), axis, both, lo as int, hi as int)),
    decreases hi - lo,
{
    let ghost rects = rects_of(elems@);
    if hi - lo < PAR_SWEEP_CUTOFF {
        let mut active: Vec<usize> = Vec::new();
        let mut out: Vec<Pair> = Vec::new();
        find_iter_leave(&mut active, axis, elems, lo, hi, both, &mut out);
        proof {
            lemma_extends_from_empty(Seq::empty(), out@, swept_within(rects, axis, both, lo as int, hi as int));
        }
        (active, out)
    } else {
        let mid: usize = lo + (hi - lo) / 2;
        let left = || -> (r: (Vec<usize>, Vec<Pair>))
            requires
                lo <= mid <= hi <= elems@.len(),
                lo < mid < hi,
                all_valid(rects_of(elems@)),
                sorted_on(rects_of(elems@), axis, lo as int, hi as int),
            ensures
                lists_exactly(r.0@, live_after(rects_of(elems@), axis, lo as int, mid as int)),
                exact(r.1@, swept_within(rects_of(elems@), axis, both, lo as int, mid as int)),
            { find_par(axis, elems, lo, mid, both) };
        let right = || -> (r: (Vec<usize>, Vec<Pair>))
            requires
                lo <= mid <= hi <= elems@.len(),
                lo < mid < hi,
                all_valid(rects_of(elems@)),
                sorted_on(rects_of(elems@), axis, lo as int, hi as int),
            ensures
                lists_exactly(r.0@, live_after(rects_of(elems@), axis, mid as int, hi as int)),
                exact(r.1@, swept_within(rects_of(elems@), axis, both, mid as int, hi as int)),
            { find_par(axis, elems, mid, hi, both) };
        let (first, second) = join(left, right);
        let (mut active, mut out) = first;
        let (mut active2, mut out2) = second;
        let ghost in_first = out@;
        let ghost in_second = out2@;
        let ghost a = swept_within(rects, axis, both, lo as int, mid as int);
        let ghost b = hits_between(rects, axis, both, mid as int, hi as int, lo as int, mid as int);
        let ghost c = swept_within(rects, axis, both, mid as int, hi as int);
        find_iter_no_add(&mut active, axis, elems, lo, mid, hi, both, &mut out);
        let ghost with_cross = out@;
        let ghost live1 = active@;
        let ghost live2 = active2@;
        out.append(&mut out2);
        active.append(&mut active2);
        proof {
            let cross = with_cross.subrange(in_first.len() as int, with_cross.len() as int);
            assert(with_cross =~= in_first + cross);
            assert(a.disjoint(b));
            lemma_exact_concat(in_first, cross, a, b);
            assert(a.union(b).disjoint(c));
            lemma_exact_concat(with_cross, in_second, a.union(b), c);
            let all = swept_within(rects, axis, both, lo as int, hi as int);
            assert forall|p: Pair| a.union(b).union(c).contains(p) <==> all.contains(p) by {}
            assert(out@ =~= with_cross + in_second);
            let kept1 = live(rects, axis, lo as int, mid as int, rects[hi - 1].on(axis).start as int);
            let kept2 = live_after(rects, axis, mid as int, hi as int);
            assert(kept1.disjoint(kept2));
            lemma_lists_joined(live1, live2, kept1, kept2);
            assert(active@ =~= live1 + live2);
            lemma_lists_same(active@, kept1.union(kept2), live_after(rects, axis, lo as int, hi as int));
        }
        (active, out)
    }
}

} // verus!
