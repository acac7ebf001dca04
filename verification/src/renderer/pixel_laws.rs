//! What reaches the GPU of a path, and what comes back of a picture.

use crate::atlas::AtlasTextureId;
use crate::geometry::ScaledPixels;
use crate::renderer::brush::{
    all_vertices, bound_after, brush_runs, draws_of_runs, sprite_boxes, vertices_of, BrushDraw,
    BrushRunModel,
};
use crate::renderer::readback::channels_swapped;
use crate::scene::insert_laws::is_modest;
use crate::scene::path::PathModel;
use vstd::prelude::*;

verus! {

/// Pixels that were held blue first are read back red first: the first and the
/// third byte of each change places, and its green and its alpha stay.
pub proof fn pixels_come_back_red_first(bytes: Seq<u8>, k: int)
    requires
        0 <= k,
        4 * k + 4 <= bytes.len(),
    ensures
        ({
            let read = channels_swapped(bytes);
            &&& read.len() == bytes.len()
            &&& read[4 * k] == bytes[4 * k + 2]
            &&& read[4 * k + 1] == bytes[4 * k + 1]
            &&& read[4 * k + 2] == bytes[4 * k]
            &&& read[4 * k + 3] == bytes[4 * k + 3]
        }),
{
}

proof fn lemma_vertices_grow(paths: Seq<PathModel<ScaledPixels>>, n: nat, m: nat)
    requires
        n <= m,
    ensures
        all_vertices(paths, n).len() <= all_vertices(paths, m).len(),
        forall|i: int|
            0 <= i < all_vertices(paths, n).len() ==> #[trigger] all_vertices(paths, m)[i]
                == all_vertices(paths, n)[i],
    decreases m,
{
    if n < m {
        lemma_vertices_grow(paths, n, (m - 1) as nat);
        let before = all_vertices(paths, (m - 1) as nat);
        let after = all_vertices(paths, m);
        assert forall|i: int| 0 <= i < all_vertices(paths, n).len() implies #[trigger] after[i]
            == all_vertices(paths, n)[i] by {
            assert(after[i] == before[i]);
        }
    }
}

/// Every corner of every path of a batch is handed on, path after path and each
/// in its own order: where it is and its texture coordinates, with its path's
/// fill and number, and cut to what lies both in the path's box and in its mask.
pub proof fn corners_are_handed_on(paths: Seq<PathModel<ScaledPixels>>, p: int, j: int, x: int, y: int)
    requires
        0 <= p < paths.len(),
        0 <= j < paths[p].vertices.len(),
        is_modest(paths[p].bounds),
        is_modest(paths[p].content_mask.bounds@),
    ensures
        ({
            let all = all_vertices(paths, paths.len());
            let at = all_vertices(paths, p as nat).len() + j;
            let path = paths[p];
            &&& at < all_vertices(paths, (p + 1) as nat).len() <= all.len()
            &&& all_vertices(paths, (p + 1) as nat).len() == all_vertices(paths, p as nat).len()
                + path.vertices.len()
            &&& all[at].xy_position == path.vertices[j].xy_position
            &&& all[at].st_position == path.vertices[j].st_position
            &&& all[at].color == path.color
            &&& all[at].path_id == p
            &&& all[at].bounds.holds(x, y) == (path.bounds.holds(x, y)
                && path.content_mask.bounds@.holds(x, y))
        }),
{
    lemma_vertices_grow(paths, (p + 1) as nat, paths.len());
    let at = all_vertices(paths, p as nat).len() + j;
    assert(all_vertices(paths, paths.len())[at] == all_vertices(paths, (p + 1) as nat)[at]);
    assert(all_vertices(paths, (p + 1) as nat)[at] == vertices_of(paths[p], p)[j]);
}

/// The texture that is bound once some draws are done, if any has bound one.
pub open spec fn bound_by(draws: Seq<BrushDraw>) -> Option<Option<AtlasTextureId>>
    decreases draws.len(),
{
    if draws.len() == 0 {
        None
    } else {
        match draws.last().bind {
            Some(texture) => Some(texture),
            None => bound_by(draws.drop_last()),
        }
    }
}

proof fn lemma_bound(runs: Seq<BrushRunModel>, n: nat)
    requires
        n <= runs.len(),
    ensures
        bound_by(draws_of_runs(runs, n)) == bound_after(runs, n),
    decreases n,
{
    if n > 0 {
        lemma_bound(runs, (n - 1) as nat);
        let before = draws_of_runs(runs, (n - 1) as nat);
        let after = draws_of_runs(runs, n);
        if after.len() > before.len() {
            assert(after.drop_last() =~= before);
        }
    }
}

/// A run is drawn once, all of it, with its own texture bound, which is bound
/// anew only where another was; a run without corners draws nothing.
pub proof fn runs_are_drawn_with_their_texture(runs: Seq<BrushRunModel>, n: nat)
    requires
        0 < n <= runs.len(),
        0 <= runs[n - 1].start <= u64::MAX,
        runs[n - 1].end <= u64::MAX,
    ensures
        ({
            let run = runs[n - 1];
            let before = draws_of_runs(runs, (n - 1) as nat);
            let after = draws_of_runs(runs, n);
            &&& run.start >= run.end ==> after == before
            &&& run.start < run.end ==> {
                &&& after.len() == before.len() + 1
                &&& after.drop_last() == before
                &&& after.last().start == run.start
                &&& after.last().start + after.last().count == run.end
                &&& bound_by(after) == Some(run.texture)
                &&& bound_by(before) == Some(run.texture) ==> after.last().bind is None
            }
        }),
{
    lemma_bound(runs, (n - 1) as nat);
    lemma_bound(runs, n);
    let before = draws_of_runs(runs, (n - 1) as nat);
    let after = draws_of_runs(runs, n);
    if runs[n - 1].start < runs[n - 1].end {
        assert(after.drop_last() =~= before);
    }
}

/// What a batch of paths is copied out as: paths of one order one by one, each by
/// what can be seen of it; and paths of several orders, which may lie on one
/// another, as one box, so that no pixel is copied twice.
pub proof fn paths_of_several_orders_are_copied_at_once(paths: Seq<PathModel<ScaledPixels>>, i: int)
    requires
        0 <= i < paths.len(),
        is_modest(paths[i].bounds),
        is_modest(paths[i].content_mask.bounds@),
    ensures
        ({
            let boxes = sprite_boxes(paths);
            &&& paths[0].order != paths.last().order ==> boxes.len() == 1
            &&& paths[0].order == paths.last().order ==> boxes.len() == paths.len() && forall|
                x: int,
                y: int,
            |
                #![trigger boxes[i].holds(x, y)]
                boxes[i].holds(x, y) == (paths[i].bounds.holds(x, y)
                    && paths[i].content_mask.bounds@.holds(x, y))
        }),
{
}

/// Whether neighbouring runs are drawn with different textures, and every run
/// with one where there are several.
pub open spec fn neighbours_differ(runs: Seq<BrushRunModel>) -> bool {
    &&& runs.len() > 1 ==> forall|i: int|
        0 <= i < runs.len() ==> (#[trigger] runs[i]).texture is Some
    &&& forall|i: int, j: int|
        0 <= i && j == i + 1 && j < runs.len() ==> (#[trigger] runs[i]).texture != (
        #[trigger] runs[j]).texture
}

/// A batch is cut into runs only where it has to be: neighbouring runs are drawn
/// with different textures, and paths without an image begin no run but the
/// first.
pub proof fn runs_are_as_long_as_can_be(paths: Seq<PathModel<ScaledPixels>>, n: nat)
    requires
        n <= paths.len(),
    ensures
        neighbours_differ(brush_runs(paths, n)),
    decreases n,
{
    if n > 0 {
        runs_are_as_long_as_can_be(paths, (n - 1) as nat);
        let runs = brush_runs(paths, (n - 1) as nat);
        let after = brush_runs(paths, n);
        let last = runs.len() - 1;
        if runs.len() > 0 {
            assert(runs[last] == runs.last());
        }
        assert forall|i: int, j: int| 0 <= i && j == i + 1 && j < after.len() implies (
        #[trigger] after[i]).texture != (#[trigger] after[j]).texture by {
            if j < last {
                assert(after[i] == runs[i] && after[j] == runs[j]);
            } else if j == last {
                assert(after[i] == runs[i]);
                assert(runs[i].texture != runs[j].texture);
                assert(runs[j].texture is Some);
            } else {
                assert(after[i] == runs[i]);
            }
        }
        if after.len() > 1 {
            assert forall|i: int| 0 <= i < after.len() implies (
            #[trigger] after[i]).texture is Some by {
                if i < last {
                    assert(after[i] == runs[i]);
                } else if i == last && runs.len() > 1 {
                    assert(runs[i].texture is Some);
                }
            }
        }
    }
}

} // verus!
