//! Whether any two of some boxes overlap.

use crate::geometry::{Bounds, Rect, ScaledPixels};
use crate::scene::model::{
    by_left, crossings, is_overlap_free, pairwise_disjoint, reaching, SCAN_BUDGET,
};
use crate::scene::ordering::lemma_sort_map;
use crate::scene::sort::{by_rank, merge_sorted, stable_sort_exists, stable_sort_keeps_len, Ranked};
use vstd::prelude::*;

verus! {

impl Ranked for Bounds<ScaledPixels> {
    open spec fn rank(self) -> int {
        self@.x
    }

    fn ranks_at_most(&self, other: &Self) -> (r: bool) {
        self.origin.x.0 <= other.origin.x.0
    }
}

/// Boxes, as numbers.
pub open spec fn rects(boxes: Seq<Bounds<ScaledPixels>>) -> Seq<Rect> {
    boxes.map_values(|b: Bounds<ScaledPixels>| b@)
}

/// Whether a box between the `i`th and the `n`th begins beyond where the `i`th
/// ends.
spec fn is_passed(boxes: Seq<Rect>, i: int, n: int) -> bool {
    exists|m: int| i < m < n && boxes[i].right() <= (#[trigger] boxes[m]).x
}

proof fn lemma_reaching_push(boxes: Seq<Rect>, n: int, x: int)
    requires
        0 <= n < boxes.len(),
    ensures
        reaching(boxes.take(n + 1), x) == reaching(boxes.take(n), x) + if boxes[n].right() > x {
            1int
        } else {
            0
        },
{
    assert(boxes.take(n + 1).drop_last() =~= boxes.take(n));
    assert(boxes.take(n + 1).last() == boxes[n]);
}

proof fn lemma_crossings_push(boxes: Seq<Rect>, n: int)
    requires
        0 <= n < boxes.len(),
    ensures
        crossings(boxes.take(n + 1)) == crossings(boxes.take(n)) + reaching(
            boxes.take(n),
            boxes[n].x,
        ),
{
    assert(boxes.take(n + 1).drop_last() =~= boxes.take(n));
    assert(boxes.take(n + 1).last() == boxes[n]);
}

proof fn lemma_crossings_ascend(boxes: Seq<Rect>, n: int)
    requires
        0 <= n <= boxes.len(),
    ensures
        crossings(boxes.take(n)) <= crossings(boxes),
    decreases boxes.len() - n,
{
    if n < boxes.len() {
        lemma_crossings_push(boxes, n);
        lemma_crossings_ascend(boxes, n + 1);
    } else {
        assert(boxes.take(n) =~= boxes);
    }
}

/// The indices of `active` whose boxes reach beyond `x`.
fn retain_reaching(boxes: &Vec<Bounds<ScaledPixels>>, active: &Vec<usize>, x: i64) -> (r: Vec<usize>)
    requires
        forall|k: int| 0 <= k < active@.len() ==> (#[trigger] active@[k]) < boxes@.len(),
    ensures
        r@ == active@.filter(|i: usize| boxes@[i as int]@.right() > x),
{
    let ghost keeps = |i: usize| boxes@[i as int]@.right() > x;
    let mut kept: Vec<usize> = Vec::new();
    let mut k: usize = 0;
    proof {
        reveal(Seq::filter);
        assert(active@.take(0).filter(keeps) =~= Seq::<usize>::empty());
    }
    while k < active.len()
        invariant
            k <= active@.len(),
            keeps == (|i: usize| boxes@[i as int]@.right() > x),
            forall|k: int| 0 <= k < active@.len() ==> (#[trigger] active@[k]) < boxes@.len(),
            kept@ == active@.take(k as int).filter(keeps),
        decreases active@.len() - k,
    {
        let other: usize = active[k];
        proof {
            reveal(Seq::filter);
            assert(active@.take(k + 1).drop_last() =~= active@.take(k as int));
            assert(active@.take(k + 1).last() == other);
        }
        if boxes[other].right().0 > x {
            kept.push(other);
        }
        k += 1;
    }
    assert(active@.take(k as int) =~= active@);
    kept
}

/// Sweep boxes that are in the order of their left edges for an overlap.
fn sweep(boxes: &Vec<Bounds<ScaledPixels>>) -> (r: bool)
    requires
        forall|i: int, j: int|
            0 <= i <= j < boxes@.len() ==> rects(boxes@)[i].x <= rects(boxes@)[j].x,
    ensures
        r == (pairwise_disjoint(rects(boxes@)) && crossings(rects(boxes@)) <= SCAN_BUDGET),
{
    let ghost sorted = rects(boxes@);
    let mut budget: usize = SCAN_BUDGET;
    let mut active: Vec<usize> = Vec::new();
    let mut index: usize = 0;
    proof {
        assert(sorted.take(0) =~= Seq::<Rect>::empty());
    }
    while index < boxes.len()
        invariant
            index <= boxes@.len(),
            sorted == rects(boxes@),
            forall|i: int, j: int| 0 <= i <= j < sorted.len() ==> sorted[i].x <= sorted[j].x,
            budget <= SCAN_BUDGET,
            crossings(sorted.take(index as int)) == SCAN_BUDGET - budget,
            forall|i: int, j: int|
                0 <= i < j < index ==> !(#[trigger] sorted[i]).intersects(#[trigger] sorted[j]),
            active@.no_duplicates(),
            forall|k: int| 0 <= k < active@.len() ==> (#[trigger] active@[k]) < index,
            forall|i: int|
                0 <= i < index ==> active@.contains(i as usize) || #[trigger] is_passed(
                    sorted,
                    i,
                    index as int,
                ),
        decreases boxes@.len() - index,
    {
        let bounds = boxes[index];
        let ghost x = sorted[index as int].x;
        let ghost before = active@;
        active = retain_reaching(boxes, &active, bounds.origin.x.0);
        let ghost keeps = |i: usize| boxes@[i as int]@.right() > x;
        proof {
            assert(active@ == before.filter(keeps));
            before.filter_lemma(keeps);
            lemma_filter_no_duplicates(before, keeps);
            assert forall|k: int| 0 <= k < active@.len() implies (#[trigger] active@[k]) < index
                && sorted[active@[k] as int].right() > x by {
                assert(active@.contains(active@[k]));
                before.lemma_filter_contains_rev(keeps, active@[k]);
                assert(keeps(active@[k]));
            }
            assert forall|i: int| 0 <= i < index && (#[trigger] sorted[i]).right() > x implies
                active@.contains(i as usize) by {
                if !before.contains(i as usize) {
                    assert(is_passed(sorted, i, index as int));
                    let m = choose|m: int|
                        i < m < index && sorted[i].right() <= (#[trigger] sorted[m]).x;
                    assert(sorted[m].x <= sorted[index as int].x);
                }
                assert(keeps(i as usize));
            }
            lemma_active_count(sorted, active@, index as int, x);
            lemma_crossings_push(sorted, index as int);
            lemma_crossings_ascend(sorted, index + 1);
        }
        let mut k: usize = 0;
        while k < active.len()
            invariant
                k <= active@.len(),
                index < boxes@.len(),
                sorted == rects(boxes@),
                    bounds == boxes@[index as int],
                x == sorted[index as int].x,
                budget <= SCAN_BUDGET,
                crossings(sorted.take(index as int)) + k == SCAN_BUDGET - budget,
                active@.len() == reaching(sorted.take(index as int), x),
                crossings(sorted.take(index as int)) + active@.len() <= crossings(sorted),
                forall|k: int| 0 <= k < active@.len() ==> (#[trigger] active@[k]) < index,
                forall|n: int|
                    0 <= n < k ==> !sorted[(#[trigger] active@[n]) as int].intersects(
                        sorted[index as int],
                    ),
            decreases active@.len() - k,
        {
            if budget == 0 {
                assert(crossings(sorted) > SCAN_BUDGET);
                return false;
            }
            budget -= 1;
            let other: usize = active[k];
            if boxes[other].intersects(&bounds) {
                assert(sorted[other as int].intersects(sorted[index as int]));
                return false;
            }
            k += 1;
        }
        proof {
            assert forall|i: int, j: int| 0 <= i < j < index + 1 implies !(
            #[trigger] sorted[i]).intersects(#[trigger] sorted[j]) by {
                if j == index {
                    if sorted[i].right() > x {
                        assert(active@.contains(i as usize));
                        let n = choose|n: int| 0 <= n < active@.len() && active@[n] == i as usize;
                        assert(!sorted[active@[n] as int].intersects(sorted[index as int]));
                    }
                }
            }
            let after = active@.push(index);
            assert forall|i: int| 0 <= i < index + 1 implies after.contains(i as usize)
                || #[trigger] is_passed(sorted, i, index + 1) by {
                if i == index {
                    assert(after[active@.len() as int] == index);
                } else if sorted[i].right() > x {
                    assert(active@.contains(i as usize));
                    let n = choose|n: int| 0 <= n < active@.len() && active@[n] == i as usize;
                    assert(after[n] == i as usize);
                } else {
                    assert(i < index < index + 1 && sorted[i].right() <= sorted[index as int].x);
                }
            }
            assert forall|k: int| 0 <= k < after.len() implies (#[trigger] after[k]) < index
                + 1 by {
                if k < active@.len() {
                    assert(after[k] == active@[k]);
                }
            }
        }
        active.push(index);
        index += 1;
    }
    assert(sorted.take(index as int) =~= sorted);
    true
}

/// Whether no two of the boxes overlap.
///
/// The boxes are swept from left to right. Where too many of them share an x
/// span for the sweep to be cheap it gives up, and the answer is no.
pub fn content_is_overlap_free(boxes: Vec<Bounds<ScaledPixels>>) -> (r: bool)
    ensures
        r == is_overlap_free(rects(boxes@)),
{
    let ghost given = boxes@;
    let boxes = merge_sorted(boxes);
    let ghost sorted = rects(boxes@);
    proof {
        let key = |r: Rect| r.x;
        let map = |b: Bounds<ScaledPixels>| b@;
        assert forall|b: Bounds<ScaledPixels>| #[trigger]
            key(map(b)) == by_rank::<Bounds<ScaledPixels>>()(b) by {}
        lemma_sort_map(given, by_rank::<Bounds<ScaledPixels>>(), map, key);
        assert(sorted == by_left(rects(given)));
        assert forall|i: int, j: int| 0 <= i <= j < sorted.len() implies sorted[i].x
            <= sorted[j].x by {
            assert(by_rank::<Bounds<ScaledPixels>>()(boxes@[i]) <= by_rank::<
                Bounds<ScaledPixels>,
            >()(boxes@[j]));
        }
    }
    sweep(&boxes)
}

proof fn lemma_filter_no_duplicates(items: Seq<usize>, keeps: spec_fn(usize) -> bool)
    requires
        items.no_duplicates(),
    ensures
        items.filter(keeps).no_duplicates(),
    decreases items.len(),
{
    reveal(Seq::filter);
    if items.len() > 0 {
        let rest = items.drop_last();
        lemma_filter_no_duplicates(rest, keeps);
        rest.filter_lemma(keeps);
        if keeps(items.last()) {
            let kept = rest.filter(keeps);
            assert forall|i: int| 0 <= i < kept.len() implies kept[i] != items.last() by {
                assert(kept.contains(kept[i]));
                rest.lemma_filter_contains_rev(keeps, kept[i]);
                let j = choose|j: int| 0 <= j < rest.len() && rest[j] == kept[i];
                assert(items[j] != items[items.len() - 1]);
            }
        }
    }
}

/// The indices of the boxes that reach beyond `x`, each listed once, are as many
/// as there are such boxes.
proof fn lemma_active_count(boxes: Seq<Rect>, active: Seq<usize>, n: int, x: int)
    requires
        0 <= n <= boxes.len() <= usize::MAX,
        active.no_duplicates(),
        forall|k: int|
            0 <= k < active.len() ==> (#[trigger] active[k]) < n && boxes[active[k] as int].right()
                > x,
        forall|i: int|
            0 <= i < n && (#[trigger] boxes[i]).right() > x ==> active.contains(i as usize),
    ensures
        active.len() == reaching(boxes.take(n), x),
    decreases n,
{
    if n == 0 {
        assert(boxes.take(0).len() == 0);
        if active.len() > 0 {
            assert(active[0] < 0);
        }
    } else {
        lemma_reaching_push(boxes, n - 1, x);
        let last = (n - 1) as usize;
        if boxes[n - 1].right() > x {
            assert(active.contains(last));
            let at = choose|at: int| 0 <= at < active.len() && active[at] == last;
            let rest = active.remove(at);
            assert(rest.no_duplicates());
            assert forall|k: int| 0 <= k < rest.len() implies (#[trigger] rest[k]) < n - 1
                && boxes[rest[k] as int].right() > x by {
                let j = if k < at {
                    k
                } else {
                    k + 1
                };
                assert(rest[k] == active[j]);
                assert(active[j] != active[at]);
            }
            assert forall|i: int| 0 <= i < n - 1 && (#[trigger] boxes[i]).right() > x implies
                rest.contains(i as usize) by {
                assert(active.contains(i as usize));
                let j = choose|j: int| 0 <= j < active.len() && active[j] == i as usize;
                if j < at {
                    assert(rest[j] == i as usize);
                } else {
                    assert(rest[j - 1] == i as usize);
                }
            }
            lemma_active_count(boxes, rest, n - 1, x);
        } else {
            assert forall|k: int| 0 <= k < active.len() implies (#[trigger] active[k]) < n - 1
                && boxes[active[k] as int].right() > x by {
                assert(active[k] != last);
            }
            lemma_active_count(boxes, active, n - 1, x);
        }
    }
}

/// A sorted list is free of overlaps only where the list it was sorted from is.
pub proof fn overlap_free_boxes_are_disjoint(boxes: Seq<Rect>)
    requires
        is_overlap_free(boxes),
    ensures
        pairwise_disjoint(boxes),
{
    let key = |r: Rect| r.x;
    stable_sort_exists(boxes, key);
    stable_sort_keeps_len(boxes, by_left(boxes), key);
    lemma_disjoint_in_any_order(by_left(boxes), boxes);
}

/// Of few enough boxes the sweep never gives up: it finds them free of overlaps
/// wherever they are.
pub proof fn few_boxes_are_swept_to_the_end(boxes: Seq<Rect>)
    requires
        boxes.len() <= 91,
    ensures
        is_overlap_free(boxes) == pairwise_disjoint(boxes),
{
    if pairwise_disjoint(boxes) {
        let key = |r: Rect| r.x;
        let sorted = by_left(boxes);
        stable_sort_exists(boxes, key);
        stable_sort_keeps_len(boxes, sorted, key);
        lemma_disjoint_in_any_order(boxes, sorted);
        lemma_crossings_bound(sorted);
        let n = sorted.len() as int;
        assert(n * (n - 1) <= 91 * 90) by (nonlinear_arith)
            requires
                0 <= n <= 91,
        ;
    } else if is_overlap_free(boxes) {
        overlap_free_boxes_are_disjoint(boxes);
    }
}

proof fn lemma_reaching_bound(boxes: Seq<Rect>, x: int)
    ensures
        reaching(boxes, x) <= boxes.len(),
    decreases boxes.len(),
{
    if boxes.len() > 0 {
        lemma_reaching_bound(boxes.drop_last(), x);
    }
}

/// No more pairs share an x span than there are pairs.
proof fn lemma_crossings_bound(boxes: Seq<Rect>)
    ensures
        2 * crossings(boxes) <= boxes.len() * (boxes.len() - 1),
    decreases boxes.len(),
{
    let n = boxes.len() as int;
    if n > 0 {
        lemma_crossings_bound(boxes.drop_last());
        lemma_reaching_bound(boxes.drop_last(), boxes.last().x);
        assert((n - 1) * (n - 2) + 2 * (n - 1) == n * (n - 1)) by (nonlinear_arith);
    }
}

/// Boxes that are apart are apart in any order.
proof fn lemma_disjoint_in_any_order(sorted: Seq<Rect>, boxes: Seq<Rect>)
    requires
        pairwise_disjoint(sorted),
        sorted.to_multiset() == boxes.to_multiset(),
    ensures
        pairwise_disjoint(boxes),
{
    broadcast use vstd::seq_lib::group_to_multiset_ensures;

    assert forall|i: int, j: int| 0 <= i < j < boxes.len() implies !(
    #[trigger] boxes[i]).intersects(#[trigger] boxes[j]) by {
        let a = boxes[i];
        let b = boxes[j];
        assert(boxes.contains(a) && boxes.contains(b));
        assert(sorted.contains(a) && sorted.contains(b)) by {
            assert(boxes.to_multiset().count(a) > 0);
            assert(boxes.to_multiset().count(b) > 0);
        }
        let p = choose|p: int| 0 <= p < sorted.len() && sorted[p] == a;
        if a == b {
            lemma_two_places_count(boxes, i, j);
            let q = lemma_count_two_places(sorted, p);
            if p < q {
                assert(!sorted[p].intersects(sorted[q]));
            } else {
                assert(!sorted[q].intersects(sorted[p]));
            }
        } else {
            let q = choose|q: int| 0 <= q < sorted.len() && sorted[q] == b;
            if p < q {
                assert(!sorted[p].intersects(sorted[q]));
            } else {
                assert(!sorted[q].intersects(sorted[p]));
            }
        }
    }
}

proof fn lemma_two_places_count(items: Seq<Rect>, i: int, j: int)
    requires
        0 <= i < j < items.len(),
        items[i] == items[j],
    ensures
        items.to_multiset().count(items[i]) >= 2,
{
    broadcast use vstd::seq_lib::group_to_multiset_ensures;
    broadcast use vstd::multiset::group_multiset_axioms;

    let front = items.take(j);
    let back = items.skip(j);
    assert(items =~= front + back);
    vstd::seq_lib::lemma_multiset_commutative(front, back);
    assert(front.contains(items[i])) by {
        assert(front[i] == items[i]);
    }
    assert(back.contains(items[i])) by {
        assert(back[0] == items[j]);
    }
    assert(front.to_multiset().count(items[i]) > 0);
    assert(back.to_multiset().count(items[i]) > 0);
}

proof fn lemma_count_two_places(items: Seq<Rect>, p: int) -> (q: int)
    requires
        0 <= p < items.len(),
        items.to_multiset().count(items[p]) >= 2,
    ensures
        0 <= q < items.len(),
        q != p,
        items[q] == items[p],
{
    broadcast use vstd::seq_lib::group_to_multiset_ensures;
    broadcast use vstd::multiset::group_multiset_axioms;

    let rest = items.remove(p);
    items.to_multiset_ensures();
    assert(items.to_multiset().remove(items[p]) =~= rest.to_multiset());
    assert(rest.to_multiset().count(items[p]) >= 1);
    assert(rest.contains(items[p]));
    let k = choose|k: int| 0 <= k < rest.len() && rest[k] == items[p];
    if k < p {
        k
    } else {
        k + 1
    }
}

} // verus!
