//! What finishing a scene does to the order of its primitives.

use crate::geometry::ScaledPixels;
use crate::scene::model::{
    ranking, sorted_in, Arrays, RunModel, SceneModel,
};
use crate::scene::path::PathModel;
use crate::scene::primitive::{DrawnSpec};
use crate::scene::segment::{Marks, PrimitiveKind};
use crate::scene::sort::{
    keyed, stable_sort, stable_sort_exists, stable_sort_is_unique, stable_sort_keeps_len,
};
use crate::scene::soundness::{
    lemma_run_closed_wf, mark_at, path_ids_are_a_permutation, runs_are_contiguous, stamps_fit,
};
use vstd::prelude::*;

verus! {

/// The stretches of one array that some runs take up.
pub open spec fn stretches(runs: Seq<RunModel>, kind: PrimitiveKind) -> Seq<(int, int)> {
    runs.map_values(|run: RunModel| (run.start.at(kind), run.end.at(kind)))
}

/// An array with each of its first `n` stretches put in drawing order.
pub open spec fn stretches_sorted<T: DrawnSpec>(
    items: Seq<T>,
    spans: Seq<(int, int)>,
    n: nat,
) -> Seq<T>
    decreases n,
{
    if n == 0 {
        items
    } else {
        let span = spans[n - 1];
        sorted_in(stretches_sorted(items, spans, (n - 1) as nat), span.0, span.1)
    }
}

/// Whether the stretches follow one another and lie within `len` items.
pub open spec fn spans_follow(spans: Seq<(int, int)>, len: int) -> bool {
    &&& forall|i: int| 0 <= i < spans.len() ==> 0 <= (#[trigger] spans[i]).0 <= spans[i].1 <= len
    &&& forall|i: int, j: int|
        0 <= i < j < spans.len() ==> (#[trigger] spans[i]).1 <= (#[trigger] spans[j]).0
}

/// Sorting a mapped sequence is mapping the sorted one, where the map keeps the
/// keys.
pub proof fn lemma_sort_map<T, U>(
    items: Seq<T>,
    key: spec_fn(T) -> int,
    map: spec_fn(T) -> U,
    other: spec_fn(U) -> int,
)
    requires
        forall|item: T| #[trigger] other(map(item)) == key(item),
    ensures
        stable_sort(items, key).map_values(map) == stable_sort(items.map_values(map), other),
{
    stable_sort_exists(items, key);
    stable_sort_exists(items.map_values(map), other);
    let sorted = stable_sort(items, key);
    let mapped = sorted.map_values(map);
    assert forall|k: int| #[trigger]
        mapped.filter(keyed(other, k)) == items.map_values(map).filter(keyed(other, k)) by {
        lemma_filter_map(sorted, key, map, other, k);
        lemma_filter_map(items, key, map, other, k);
        assert(sorted.filter(keyed(key, k)) == items.filter(keyed(key, k)));
    }
    stable_sort_is_unique(
        items.map_values(map),
        mapped,
        stable_sort(items.map_values(map), other),
        other,
    );
}

proof fn lemma_filter_map<T, U>(
    items: Seq<T>,
    key: spec_fn(T) -> int,
    map: spec_fn(T) -> U,
    other: spec_fn(U) -> int,
    k: int,
)
    requires
        forall|item: T| #[trigger] other(map(item)) == key(item),
    ensures
        items.map_values(map).filter(keyed(other, k)) == items.filter(keyed(key, k)).map_values(
            map,
        ),
    decreases items.len(),
{
    reveal(Seq::filter);
    if items.len() == 0 {
        assert(items.map_values(map) =~= Seq::<U>::empty());
        assert(items.filter(keyed(key, k)) =~= Seq::<T>::empty());
    } else {
        let rest = items.drop_last();
        lemma_filter_map(rest, key, map, other, k);
        assert(items.map_values(map).drop_last() =~= rest.map_values(map));
        assert(items.map_values(map).last() == map(items.last()));
        assert(other(map(items.last())) == key(items.last()));
        if key(items.last()) == k {
            assert(items.filter(keyed(key, k)) == rest.filter(keyed(key, k)).push(items.last()));
            assert(rest.filter(keyed(key, k)).push(items.last()).map_values(map)
                =~= rest.filter(keyed(key, k)).map_values(map).push(map(items.last())));
        }
    }
}

/// What sorting one stretch of an array does to it.
pub proof fn lemma_sorted_in<T: DrawnSpec>(items: Seq<T>, start: int, end: int)
    requires
        0 <= start <= end <= items.len(),
    ensures
        sorted_in(items, start, end).len() == items.len(),
        sorted_in(items, start, end).to_multiset() == items.to_multiset(),
        sorted_in(items, start, end).subrange(start, end) == stable_sort(
            items.subrange(start, end),
            ranking::<T>(),
        ),
        forall|a: int, b: int|
            #![trigger sorted_in(items, start, end).subrange(a, b)]
            (0 <= a <= b <= start || end <= a <= b <= items.len()) ==> sorted_in(
                items,
                start,
                end,
            ).subrange(a, b) == items.subrange(a, b),
{
    let run = items.subrange(start, end);
    let sorted = stable_sort(run, ranking::<T>());
    stable_sort_exists(run, ranking::<T>());
    stable_sort_keeps_len(run, sorted, ranking::<T>());
    let after = sorted_in(items, start, end);
    assert(after.subrange(start, end) =~= sorted);
    assert forall|a: int, b: int|
        #![trigger after.subrange(a, b)]
        (0 <= a <= b <= start || end <= a <= b <= items.len()) implies after.subrange(a, b)
        == items.subrange(a, b) by {
        assert(after.subrange(a, b) =~= items.subrange(a, b));
    }
    assert(items =~= items.take(start) + run + items.skip(end));
    vstd::seq_lib::lemma_multiset_commutative(items.take(start), run);
    vstd::seq_lib::lemma_multiset_commutative(items.take(start) + run, items.skip(end));
    vstd::seq_lib::lemma_multiset_commutative(items.take(start), sorted);
    vstd::seq_lib::lemma_multiset_commutative(items.take(start) + sorted, items.skip(end));
}

/// What sorting the stretches of an array one by one does to it.
pub proof fn lemma_stretches_sorted<T: DrawnSpec>(items: Seq<T>, spans: Seq<(int, int)>, n: nat)
    requires
        n <= spans.len(),
        spans_follow(spans, items.len() as int),
    ensures
        stretches_sorted(items, spans, n).len() == items.len(),
        stretches_sorted(items, spans, n).to_multiset() == items.to_multiset(),
        forall|i: int|
            #![trigger spans[i]]
            0 <= i < spans.len() ==> stretches_sorted(items, spans, n).subrange(
                spans[i].0,
                spans[i].1,
            ) == if i < n {
                stable_sort(items.subrange(spans[i].0, spans[i].1), ranking::<T>())
            } else {
                items.subrange(spans[i].0, spans[i].1)
            },
    decreases n,
{
    if n > 0 {
        let m = (n - 1) as nat;
        lemma_stretches_sorted(items, spans, m);
        let before = stretches_sorted(items, spans, m);
        let span = spans[n - 1];
        lemma_sorted_in(before, span.0, span.1);
        let after = stretches_sorted(items, spans, n);
        assert forall|i: int|
            #![trigger spans[i]]
            0 <= i < spans.len() implies after.subrange(spans[i].0, spans[i].1) == if i < n {
            stable_sort(items.subrange(spans[i].0, spans[i].1), ranking::<T>())
        } else {
            items.subrange(spans[i].0, spans[i].1)
        } by {
            if i < n - 1 {
                assert(spans[i].1 <= span.0);
            } else if i > n - 1 {
                assert(span.1 <= spans[i].0);
            }
        }
    }
}

/// Items that are all there, in another order, carry the same stamps.
proof fn lemma_permuted_stamps<T: DrawnSpec>(
    items: Seq<T>,
    after: Seq<T>,
    orders: nat,
    clips: nat,
)
    requires
        stamps_fit(items, orders, clips),
        after.to_multiset() == items.to_multiset(),
    ensures
        stamps_fit(after, orders, clips),
{
    broadcast use vstd::seq_lib::group_to_multiset_ensures;

    assert forall|i: int| 0 <= i < after.len() implies 1 <= (#[trigger] after[i]).draw_order()
        <= orders && after[i].draw_clip().0 <= clips by {
        assert(after.contains(after[i]));
        assert(after.to_multiset().count(after[i]) > 0);
        assert(items.contains(after[i]));
        let j = choose|j: int| 0 <= j < items.len() && items[j] == after[i];
        assert(1 <= items[j].draw_order() <= orders);
    }
}

/// Paths that are all there, in another order, carry the same numbers.
proof fn lemma_permuted_ids(
    paths: Seq<PathModel<ScaledPixels>>,
    after: Seq<PathModel<ScaledPixels>>,
)
    requires
        path_ids_are_a_permutation(paths),
        after.to_multiset() == paths.to_multiset(),
        after.len() == paths.len(),
    ensures
        path_ids_are_a_permutation(after),
{
    broadcast use vstd::seq_lib::group_to_multiset_ensures;

    assert(paths.no_duplicates()) by {
        assert forall|i: int, j: int|
            0 <= i < paths.len() && 0 <= j < paths.len() && i != j implies paths[i]
            != paths[j] by {
            if i < j {
                assert(paths[i].id != paths[j].id);
            } else {
                assert(paths[j].id != paths[i].id);
            }
        }
    }
    paths.lemma_multiset_has_no_duplicates();
    after.lemma_multiset_has_no_duplicates_conv();
    assert forall|i: int| 0 <= i < after.len() implies paths.contains(#[trigger] after[i]) by {
        assert(after.contains(after[i]));
        assert(after.to_multiset().count(after[i]) > 0);
        assert(paths.contains(after[i]));
    }
    assert forall|i: int| 0 <= i < after.len() implies (#[trigger] after[i]).id
        < after.len() by {
        assert(paths.contains(after[i]));
        let j = choose|j: int| 0 <= j < paths.len() && paths[j] == after[i];
        assert(paths[j].id < paths.len());
    }
    assert forall|i: int, j: int| 0 <= i < j < after.len() implies (#[trigger] after[i]).id
        != (#[trigger] after[j]).id by {
        assert(paths.contains(after[i]) && paths.contains(after[j]));
        let p = choose|p: int| 0 <= p < paths.len() && paths[p] == after[i];
        let q = choose|q: int| 0 <= q < paths.len() && paths[q] == after[j];
        assert(after[i] != after[j]);
        assert(p != q);
        if p < q {
            assert(paths[p].id != paths[q].id);
        } else {
            assert(paths[q].id != paths[p].id);
        }
    }
}

/// Sorting the runs sorts the stretches of every array.
pub proof fn lemma_runs_sorted_fields(arrays: Arrays, runs: Seq<RunModel>, n: nat)
    requires
        n <= runs.len(),
    ensures
        arrays.runs_sorted(runs, n).shadows == stretches_sorted(
            arrays.shadows,
            stretches(runs, PrimitiveKind::Shadow),
            n,
        ),
        arrays.runs_sorted(runs, n).quads == stretches_sorted(
            arrays.quads,
            stretches(runs, PrimitiveKind::Quad),
            n,
        ),
        arrays.runs_sorted(runs, n).paths == stretches_sorted(
            arrays.paths,
            stretches(runs, PrimitiveKind::Path),
            n,
        ),
        arrays.runs_sorted(runs, n).underlines == stretches_sorted(
            arrays.underlines,
            stretches(runs, PrimitiveKind::Underline),
            n,
        ),
        arrays.runs_sorted(runs, n).monochrome_sprites == stretches_sorted(
            arrays.monochrome_sprites,
            stretches(runs, PrimitiveKind::MonochromeSprite),
            n,
        ),
        arrays.runs_sorted(runs, n).subpixel_sprites == stretches_sorted(
            arrays.subpixel_sprites,
            stretches(runs, PrimitiveKind::SubpixelSprite),
            n,
        ),
        arrays.runs_sorted(runs, n).polychrome_sprites == stretches_sorted(
            arrays.polychrome_sprites,
            stretches(runs, PrimitiveKind::PolychromeSprite),
            n,
        ),
        arrays.runs_sorted(runs, n).surfaces == stretches_sorted(
            arrays.surfaces,
            stretches(runs, PrimitiveKind::Surface),
            n,
        ),
    decreases n,
{
    if n > 0 {
        lemma_runs_sorted_fields(arrays, runs, (n - 1) as nat);
        let run = runs[n - 1];
        assert(stretches(runs, PrimitiveKind::Shadow)[n - 1] == (run.start.shadows, run.end.shadows));
        assert(stretches(runs, PrimitiveKind::Quad)[n - 1] == (run.start.quads, run.end.quads));
        assert(stretches(runs, PrimitiveKind::Path)[n - 1] == (run.start.paths, run.end.paths));
        assert(stretches(runs, PrimitiveKind::Underline)[n - 1] == (run.start.underlines, run.end.underlines));
        assert(stretches(runs, PrimitiveKind::MonochromeSprite)[n - 1] == (run.start.monochrome_sprites, run.end.monochrome_sprites));
        assert(stretches(runs, PrimitiveKind::SubpixelSprite)[n - 1] == (run.start.subpixel_sprites, run.end.subpixel_sprites));
        assert(stretches(runs, PrimitiveKind::PolychromeSprite)[n - 1] == (run.start.polychrome_sprites, run.end.polychrome_sprites));
        assert(stretches(runs, PrimitiveKind::Surface)[n - 1] == (run.start.surfaces, run.end.surfaces));
    }
}

/// Runs that follow one another end no later than the last.
proof fn lemma_marks_ascend(segments: Seq<RunModel>, i: int, j: int)
    requires
        runs_are_contiguous(segments),
        0 <= i <= j <= segments.len(),
    ensures
        mark_at(segments, i).le(mark_at(segments, j)),
        Marks::zero().le(mark_at(segments, j)),
    decreases j,
{
    if i < j {
        lemma_marks_ascend(segments, i, j - 1);
        assert(segments[j - 1].start == mark_at(segments, j - 1));
    } else if j > 0 {
        assert(segments[j - 1].start == mark_at(segments, j - 1));
    }
}

/// The stretches of the runs of a scene follow one another.
pub proof fn lemma_stretches_follow(segments: Seq<RunModel>, kind: PrimitiveKind, ends: Marks)
    requires
        runs_are_contiguous(segments),
        mark_at(segments, segments.len() as int).le(ends),
    ensures
        spans_follow(stretches(segments, kind), ends.at(kind)),
{
    let spans = stretches(segments, kind);
    assert forall|i: int| 0 <= i < spans.len() implies 0 <= (#[trigger] spans[i]).0 <= spans[i].1
        <= ends.at(kind) by {
        lemma_marks_ascend(segments, i, i + 1);
        lemma_marks_ascend(segments, i + 1, segments.len() as int);
        assert(segments[i].start == mark_at(segments, i));
        lemma_marks_ascend(segments, 0, i);
    }
    assert forall|i: int, j: int| 0 <= i < j < spans.len() implies (#[trigger] spans[i]).1 <= (
    #[trigger] spans[j]).0 by {
        lemma_marks_ascend(segments, i + 1, j);
        assert(segments[j].start == mark_at(segments, j));
    }
}

/// Finishing a scene keeps what holds of it, moves no run and loses no
/// primitive.
pub proof fn lemma_finished_wf(s: SceneModel)
    requires
        s.wf(),
    ensures
        s.finished().wf(),
        s.finished().arrays.marks() == s.arrays.marks(),
{
    reveal(SceneModel::wf);
    lemma_run_closed_wf(s);
    let c = s.run_closed();
    let t = s.finished();
    let runs = c.segments;
    lemma_runs_sorted_fields(c.arrays, runs, runs.len());
    lemma_stretches_follow(runs, PrimitiveKind::Shadow, c.arrays.marks());
    lemma_stretches_sorted(
        c.arrays.shadows,
        stretches(runs, PrimitiveKind::Shadow),
        runs.len(),
    );
    lemma_permuted_stamps(
        c.arrays.shadows,
        t.arrays.shadows,
        c.tree.len(),
        c.clips.len(),
    );
    lemma_stretches_follow(runs, PrimitiveKind::Quad, c.arrays.marks());
    lemma_stretches_sorted(
        c.arrays.quads,
        stretches(runs, PrimitiveKind::Quad),
        runs.len(),
    );
    lemma_permuted_stamps(
        c.arrays.quads,
        t.arrays.quads,
        c.tree.len(),
        c.clips.len(),
    );
    lemma_stretches_follow(runs, PrimitiveKind::Path, c.arrays.marks());
    lemma_stretches_sorted(
        c.arrays.paths,
        stretches(runs, PrimitiveKind::Path),
        runs.len(),
    );
    lemma_permuted_stamps(
        c.arrays.paths,
        t.arrays.paths,
        c.tree.len(),
        c.clips.len(),
    );
    lemma_stretches_follow(runs, PrimitiveKind::Underline, c.arrays.marks());
    lemma_stretches_sorted(
        c.arrays.underlines,
        stretches(runs, PrimitiveKind::Underline),
        runs.len(),
    );
    lemma_permuted_stamps(
        c.arrays.underlines,
        t.arrays.underlines,
        c.tree.len(),
        c.clips.len(),
    );
    lemma_stretches_follow(runs, PrimitiveKind::MonochromeSprite, c.arrays.marks());
    lemma_stretches_sorted(
        c.arrays.monochrome_sprites,
        stretches(runs, PrimitiveKind::MonochromeSprite),
        runs.len(),
    );
    lemma_permuted_stamps(
        c.arrays.monochrome_sprites,
        t.arrays.monochrome_sprites,
        c.tree.len(),
        c.clips.len(),
    );
    lemma_stretches_follow(runs, PrimitiveKind::SubpixelSprite, c.arrays.marks());
    lemma_stretches_sorted(
        c.arrays.subpixel_sprites,
        stretches(runs, PrimitiveKind::SubpixelSprite),
        runs.len(),
    );
    lemma_permuted_stamps(
        c.arrays.subpixel_sprites,
        t.arrays.subpixel_sprites,
        c.tree.len(),
        c.clips.len(),
    );
    lemma_stretches_follow(runs, PrimitiveKind::PolychromeSprite, c.arrays.marks());
    lemma_stretches_sorted(
        c.arrays.polychrome_sprites,
        stretches(runs, PrimitiveKind::PolychromeSprite),
        runs.len(),
    );
    lemma_permuted_stamps(
        c.arrays.polychrome_sprites,
        t.arrays.polychrome_sprites,
        c.tree.len(),
        c.clips.len(),
    );
    lemma_stretches_follow(runs, PrimitiveKind::Surface, c.arrays.marks());
    lemma_stretches_sorted(
        c.arrays.surfaces,
        stretches(runs, PrimitiveKind::Surface),
        runs.len(),
    );
    lemma_permuted_stamps(
        c.arrays.surfaces,
        t.arrays.surfaces,
        c.tree.len(),
        c.clips.len(),
    );
    lemma_permuted_ids(c.arrays.paths, t.arrays.paths);
    assert forall|i: int| 0 <= i < t.open.len() implies #[trigger] t.open_group_holds(i) by {
        assert(c.open_group_holds(i));
    }
}

} // verus!
