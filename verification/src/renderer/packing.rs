//! Placing clip tiles in an atlas.

use crate::clip_path::FillRule;
use crate::fixed::{max, min};
use crate::geometry::{Place, Point, ScaledPixels};
use crate::renderer::extent::{DeviceRect, Extent, CLIP_TEXTURE_QUANTUM};
use crate::renderer::flatten::contours_view;
use crate::scene::sort::{
    by_rank, is_stable_sort, keyed, merge_sorted, stable_sort, stable_sort_exists,
    stable_sort_is_unique, stable_sort_keeps_len, Ranked,
};
use crate::scene::ordering::lemma_sort_map;
use vstd::prelude::*;

verus! {

/// The largest either side of the atlas grows to for packing alone.
pub const CLIP_ATLAS_MAX_SIZE: i32 = 4096;

/// The largest either side of the atlas grows to for a single tile.
pub const CLIP_ATLAS_TEXTURE_LIMIT: i32 = 16384;

/// The largest atlas that is packed.
pub const ATLAS_BOUND: i32 = 0x3fff_ffff;

/// One clip path, flattened, before it has been given a place in the atlas.
#[derive(Debug)]
pub struct ClipShape {
    pub contours: Vec<Vec<Point<ScaledPixels>>>,
    /// The part of the window this clip can reach. It encloses nothing for a
    /// clip that lets nothing through.
    pub device: DeviceRect,
    pub fill_rule: FillRule,
    pub parent: Option<usize>,
    pub depth: usize,
    /// Whether the clip is shallow enough to be given a mask.
    pub wants_mask: bool,
}

/// A clip shape, as what it says.
#[verifier::ext_equal]
pub struct ShapeModel {
    pub contours: Seq<Seq<Place>>,
    pub device: DeviceRect,
    pub fill_rule: FillRule,
    pub parent: Option<int>,
    pub depth: int,
    pub wants_mask: bool,
}

impl ShapeModel {
    /// Whether this clip asks for a tile of the atlas.
    pub open spec fn wants_tile(self) -> bool {
        self.wants_mask && !self.device.encloses_nothing() && self.contours.len() > 0
    }
}

impl View for ClipShape {
    type V = ShapeModel;

    open spec fn view(&self) -> ShapeModel {
        ShapeModel {
            contours: contours_view(self.contours@),
            device: self.device,
            fill_rule: self.fill_rule,
            parent: match self.parent {
                None => None,
                Some(parent) => Some(parent as int),
            },
            depth: self.depth as int,
            wants_mask: self.wants_mask,
        }
    }
}

impl ClipShape {
    /// Whether this clip asks for a tile of the atlas.
    pub fn wants_tile(&self) -> (r: bool)
        ensures
            r == self@.wants_tile(),
    {
        self.wants_mask && !self.device.is_empty() && self.contours.len() > 0
    }
}

pub open spec fn shapes_view(shapes: Seq<ClipShape>) -> Seq<ShapeModel> {
    shapes.map_values(|shape: ClipShape| shape@)
}

/// A tile to place.
#[derive(Clone, Copy, Debug)]
pub struct Candidate {
    pub index: usize,
    pub depth: usize,
    pub height: i32,
}

/// Where a tile stands in the order of packing: by its depth, and then tallest
/// first.
pub open spec fn packing_rank(depth: int, height: int) -> int {
    depth * 0x1_0000_0000 - height
}

impl Ranked for Candidate {
    open spec fn rank(self) -> int {
        packing_rank(self.depth as int, self.height as int)
    }

    fn ranks_at_most(&self, other: &Self) -> (r: bool) {
        let mine: i128 = self.depth as i128 * 0x1_0000_0000 - self.height as i128;
        let theirs: i128 = other.depth as i128 * 0x1_0000_0000 - other.height as i128;
        mine <= theirs
    }
}

/// The first `n` clips that ask for a tile.
pub open spec fn wanting(shapes: Seq<ShapeModel>, n: nat) -> Seq<int>
    decreases n,
{
    if n == 0 {
        Seq::empty()
    } else {
        let rest = wanting(shapes, (n - 1) as nat);
        if shapes[n - 1].wants_tile() {
            rest.push(n - 1)
        } else {
            rest
        }
    }
}

/// The order in which the tiles of some shapes are packed: level by level, and
/// tallest first inside a level.
pub open spec fn tile_order(shapes: Seq<ShapeModel>) -> Seq<int> {
    stable_sort(
        wanting(shapes, shapes.len()),
        |index: int| packing_rank(shapes[index].depth, shapes[index].device.height as int),
    )
}

/// The indices of some candidates.
pub open spec fn indices(candidates: Seq<Candidate>) -> Seq<int> {
    candidates.map_values(|c: Candidate| c.index as int)
}

pub open spec fn as_ints(order: Seq<usize>) -> Seq<int> {
    order.map_values(|index: usize| index as int)
}

/// What holds of the order in which tiles are packed: every clip that asks for a
/// tile is in it once, and no other.
#[verifier::opaque]
pub open spec fn order_holds(shapes: Seq<ShapeModel>, order: Seq<int>) -> bool {
    &&& forall|k: int|
        0 <= k < order.len() ==> 0 <= (#[trigger] order[k]) < shapes.len()
            && shapes[order[k]].wants_tile()
    &&& order.no_duplicates()
    &&& forall|i: int|
        0 <= i < shapes.len() && (#[trigger] shapes[i]).wants_tile() ==> order.contains(i)
    &&& forall|j: int, k: int|
        0 <= j <= k < order.len() ==> shapes[#[trigger] order[j]].depth
            <= shapes[#[trigger] order[k]].depth
}

/// Whether some clips can be packed in this order: each exists, is listed once
/// and has something to place.
#[verifier::opaque]
pub open spec fn is_packable(shapes: Seq<ShapeModel>, order: Seq<int>) -> bool {
    &&& forall|k: int|
        0 <= k < order.len() ==> 0 <= (#[trigger] order[k]) < shapes.len()
            && !shapes[order[k]].device.encloses_nothing()
    &&& order.no_duplicates()
}

/// Clips that ask for a tile can be packed.
pub proof fn lemma_order_is_packable(shapes: Seq<ShapeModel>, order: Seq<int>)
    requires
        order_holds(shapes, order),
    ensures
        is_packable(shapes, order),
{
    reveal(order_holds);
    reveal(is_packable);
}

proof fn lemma_wanting(shapes: Seq<ShapeModel>, n: nat)
    requires
        n <= shapes.len(),
    ensures
        forall|k: int|
            0 <= k < wanting(shapes, n).len() ==> 0 <= (#[trigger] wanting(shapes, n)[k]) < n
                && shapes[wanting(shapes, n)[k]].wants_tile(),
        wanting(shapes, n).no_duplicates(),
        forall|i: int|
            0 <= i < n && (#[trigger] shapes[i]).wants_tile() ==> wanting(shapes, n).contains(i),
    decreases n,
{
    if n > 0 {
        let rest = wanting(shapes, (n - 1) as nat);
        let all = wanting(shapes, n);
        lemma_wanting(shapes, (n - 1) as nat);
        assert forall|i: int| 0 <= i < n && (#[trigger] shapes[i]).wants_tile() implies all.contains(
            i,
        ) by {
            if i == n - 1 {
                assert(all[all.len() - 1] == i);
            } else {
                assert(rest.contains(i));
                let k = choose|k: int| 0 <= k < rest.len() && rest[k] == i;
                assert(all[k] == i);
            }
        }
    }
}

/// The order of packing is what it should be.
pub proof fn lemma_order_holds(shapes: Seq<ShapeModel>)
    requires
        forall|i: int|
            0 <= i < shapes.len() ==> 0 <= (#[trigger] shapes[i]).depth && shapes[i].device.height
                <= 0x7fff_ffff,
    ensures
        order_holds(shapes, tile_order(shapes)),
{
    reveal(order_holds);
    broadcast use vstd::seq_lib::group_to_multiset_ensures;

    let key = |index: int| packing_rank(shapes[index].depth, shapes[index].device.height as int);
    let before = wanting(shapes, shapes.len());
    let order = tile_order(shapes);
    lemma_wanting(shapes, shapes.len());
    stable_sort_exists(before, key);
    stable_sort_keeps_len(before, order, key);
    assert forall|k: int| 0 <= k < order.len() implies before.contains(#[trigger] order[k]) by {
        assert(order.contains(order[k]));
        assert(order.to_multiset().count(order[k]) > 0);
    }
    assert forall|k: int| 0 <= k < order.len() implies 0 <= (#[trigger] order[k]) < shapes.len()
        && shapes[order[k]].wants_tile() by {
        assert(before.contains(order[k]));
        let j = choose|j: int| 0 <= j < before.len() && before[j] == order[k];
        assert(shapes[before[j]].wants_tile());
    }
    before.lemma_multiset_has_no_duplicates();
    order.lemma_multiset_has_no_duplicates_conv();
    assert forall|i: int| 0 <= i < shapes.len() && (#[trigger] shapes[i]).wants_tile() implies
        order.contains(i) by {
        assert(before.contains(i));
        assert(before.to_multiset().count(i) > 0);
        assert(order.to_multiset().count(i) > 0);
    }
    assert forall|j: int, k: int| 0 <= j <= k < order.len() implies shapes[
        #[trigger] order[j]
    ].depth <= shapes[#[trigger] order[k]].depth by {
        assert(key(order[j]) <= key(order[k]));
        assert(shapes[order[j]].wants_tile() && shapes[order[k]].wants_tile());
    }
}

/// The order in which the tiles of some shapes are packed.
pub fn packing_order(shapes: &Vec<ClipShape>) -> (r: Vec<usize>)
    ensures
        as_ints(r@) == tile_order(shapes_view(shapes@)),
{
    let ghost models = shapes_view(shapes@);
    let mut candidates: Vec<Candidate> = Vec::new();
    let mut index: usize = 0;
    assert(indices(candidates@) =~= Seq::<int>::empty());
    while index < shapes.len()
        invariant
            index <= shapes@.len(),
            models == shapes_view(shapes@),
            indices(candidates@) == wanting(models, index as nat),
            forall|k: int|
                0 <= k < candidates@.len() ==> (#[trigger] candidates@[k]).index < shapes@.len()
                    && candidates@[k].depth == models[candidates@[k].index as int].depth
                    && candidates@[k].height == models[candidates@[k].index as int].device.height,
        decreases shapes@.len() - index,
    {
        let ghost prior = candidates@;
        assert(models[index as int] == shapes@[index as int]@);
        if shapes[index].wants_tile() {
            let candidate = Candidate {
                index,
                depth: shapes[index].depth,
                height: shapes[index].device.height,
            };
            candidates.push(candidate);
            assert(indices(candidates@) =~= indices(prior).push(index as int));
        }
        index += 1;
    }
    let ghost given = candidates@;
    let sorted = merge_sorted(candidates);
    proof {
        lemma_sort_candidates(models, given);
        assert(indices(sorted@) == tile_order(models));
    }
    let mut order: Vec<usize> = Vec::new();
    let mut k: usize = 0;
    assert(as_ints(order@) =~= indices(sorted@).take(0));
    while k < sorted.len()
        invariant
            k <= sorted@.len(),
            as_ints(order@) == indices(sorted@).take(k as int),
        decreases sorted@.len() - k,
    {
        let ghost prior = order@;
        order.push(sorted[k].index);
        k += 1;
        assert(as_ints(order@) =~= as_ints(prior).push(sorted@[k - 1].index as int));
        assert(as_ints(order@) =~= indices(sorted@).take(k as int));
    }
    assert(indices(sorted@).take(k as int) =~= indices(sorted@));
    order
}

/// Sorting candidates sorts the indices they stand for.
proof fn lemma_sort_candidates(shapes: Seq<ShapeModel>, candidates: Seq<Candidate>)
    requires
        forall|k: int|
            0 <= k < candidates.len() ==> (#[trigger] candidates[k]).depth
                == shapes[candidates[k].index as int].depth && candidates[k].height
                == shapes[candidates[k].index as int].device.height,
    ensures
        indices(stable_sort(candidates, by_rank::<Candidate>())) == stable_sort(
            indices(candidates),
            |index: int| packing_rank(shapes[index].depth, shapes[index].device.height as int),
        ),
{
    let key = |index: int| packing_rank(shapes[index].depth, shapes[index].device.height as int);
    // The rank of an index, carried by whatever candidate stands for it.
    let told = |c: Candidate| key(c.index as int);
    let rank = by_rank::<Candidate>();
    stable_sort_exists(candidates, rank);
    let sorted = stable_sort(candidates, rank);
    stable_sort_keeps_len(candidates, sorted, rank);
    lemma_same_key_sort(candidates, sorted, rank, told);
    stable_sort_exists(candidates, told);
    stable_sort_is_unique(
        candidates,
        sorted,
        stable_sort(candidates, told),
        told,
    );
    lemma_sort_map(candidates, told, |c: Candidate| c.index as int, key);
}

/// A sort by one key is a sort by another that agrees with it on the items.
proof fn lemma_same_key_sort(
    items: Seq<Candidate>,
    sorted: Seq<Candidate>,
    key: spec_fn(Candidate) -> int,
    other: spec_fn(Candidate) -> int,
)
    requires
        is_stable_sort(items, sorted, key),
        forall|k: int| 0 <= k < items.len() ==> key(#[trigger] items[k]) == other(items[k]),
    ensures
        is_stable_sort(items, sorted, other),
{
    broadcast use vstd::seq_lib::group_to_multiset_ensures;

    stable_sort_keeps_len(items, sorted, key);
    assert forall|k: int| 0 <= k < sorted.len() implies key(#[trigger] sorted[k]) == other(
        sorted[k],
    ) by {
        assert(sorted.contains(sorted[k]));
        assert(sorted.to_multiset().count(sorted[k]) > 0);
        assert(items.contains(sorted[k]));
        let j = choose|j: int| 0 <= j < items.len() && items[j] == sorted[k];
        assert(key(items[j]) == other(items[j]));
    }
    assert forall|i: int, j: int| 0 <= i <= j < sorted.len() implies other(sorted[i]) <= other(
        sorted[j],
    ) by {
        assert(key(sorted[i]) <= key(sorted[j]));
    }
    assert forall|k: int| #[trigger]
        sorted.filter(keyed(other, k)) == items.filter(
            keyed(other, k),
        ) by {
        lemma_same_filter(items, key, other, k);
        lemma_same_filter(sorted, key, other, k);
        assert(sorted.filter(keyed(key, k)) == items.filter(
            keyed(key, k),
        ));
    }
}

proof fn lemma_same_filter(
    items: Seq<Candidate>,
    key: spec_fn(Candidate) -> int,
    other: spec_fn(Candidate) -> int,
    k: int,
)
    requires
        forall|i: int| 0 <= i < items.len() ==> key(#[trigger] items[i]) == other(items[i]),
    ensures
        items.filter(keyed(key, k)) == items.filter(
            keyed(other, k),
        ),
    decreases items.len(),
{
    reveal(Seq::filter);
    if items.len() > 0 {
        let rest = items.drop_last();
        assert forall|i: int| 0 <= i < rest.len() implies key(#[trigger] rest[i]) == other(
            rest[i],
        ) by {
            assert(rest[i] == items[i]);
        }
        lemma_same_filter(rest, key, other, k);
        assert(key(items[items.len() - 1]) == other(items[items.len() - 1]));
    }
}

/// How far packing has got: the shelf being filled, and where tiles have been
/// put.
#[verifier::ext_equal]
pub struct Shelf {
    pub x: int,
    pub y: int,
    pub height: int,
    pub depth: Option<int>,
    pub placements: Seq<Option<(int, int)>>,
    pub all_fit: bool,
}

impl Shelf {
    pub open spec fn begun(n: nat) -> Shelf {
        Shelf {
            x: 0,
            y: 0,
            height: 0,
            depth: None,
            placements: Seq::new(n, |i: int| None),
            all_fit: true,
        }
    }

    /// The shelf that a tile goes on: the one being filled, or a new one where
    /// the depth changes or the tile does not fit beside the others.
    pub open spec fn for_tile(self, shape: ShapeModel, atlas: Extent) -> Shelf {
        if self.depth != Some(shape.depth) || self.x + shape.device.width > atlas.width {
            Shelf {
                x: 0,
                y: self.y + self.height,
                height: 0,
                depth: Some(shape.depth),
                ..self
            }
        } else {
            self
        }
    }

    /// The shelf after one more tile, which is left out where it does not fit.
    pub open spec fn placed(self, shapes: Seq<ShapeModel>, index: int, atlas: Extent) -> Shelf {
        let shape = shapes[index];
        let (width, height) = (shape.device.width as int, shape.device.height as int);
        if width > atlas.width || height > atlas.height {
            Shelf { all_fit: false, ..self }
        } else {
            let shelf = self.for_tile(shape, atlas);
            if shelf.y + height > atlas.height {
                Shelf { all_fit: false, ..shelf }
            } else {
                Shelf {
                    placements: shelf.placements.update(index, Some((shelf.x, shelf.y))),
                    x: shelf.x + width,
                    height: max(shelf.height, height),
                    ..shelf
                }
            }
        }
    }
}

/// The shelf after the first `n` tiles of `order`.
pub open spec fn packed(shapes: Seq<ShapeModel>, order: Seq<int>, atlas: Extent, n: nat) -> Shelf
    decreases n,
{
    if n == 0 {
        Shelf::begun(shapes.len())
    } else {
        packed(shapes, order, atlas, (n - 1) as nat).placed(shapes, order[n - 1], atlas)
    }
}

/// Where every tile of `order` is put, and whether all of them were.
pub open spec fn packing(shapes: Seq<ShapeModel>, order: Seq<int>, atlas: Extent) -> Shelf {
    packed(shapes, order, atlas, order.len())
}

/// Where a placed tile lies in the atlas.
pub open spec fn tile_of(shape: ShapeModel, at: (int, int)) -> DeviceRect {
    DeviceRect {
        x: at.0 as i32,
        y: at.1 as i32,
        width: shape.device.width,
        height: shape.device.height,
    }
}

/// Whether two tiles share no pixel.
pub open spec fn tiles_are_apart(a: DeviceRect, b: DeviceRect) -> bool {
    ||| a.right() <= b.x
    ||| b.right() <= a.x
    ||| a.bottom() <= b.y
    ||| b.bottom() <= a.y
}

/// Whether two tiles share no row of pixels.
pub open spec fn rows_are_apart(a: DeviceRect, b: DeviceRect) -> bool {
    a.bottom() <= b.y || b.bottom() <= a.y
}

/// What holds while tiles are packed.
#[verifier::opaque]
pub open spec fn shelf_holds(
    shelf: Shelf,
    shapes: Seq<ShapeModel>,
    order: Seq<int>,
    atlas: Extent,
    n: int,
) -> bool {
    &&& 0 <= shelf.x <= atlas.width
    &&& 0 <= shelf.y
    &&& 0 <= shelf.height
    &&& shelf.y + shelf.height <= atlas.height
    &&& shelf.placements.len() == shapes.len()
    &&& forall|i: int|
        0 <= i < shapes.len() ==> match #[trigger] shelf.placements[i] {
            None => true,
            Some((x, y)) => {
                &&& 0 <= x && x + shapes[i].device.width <= atlas.width
                &&& 0 <= y && y + shapes[i].device.height <= atlas.height
                &&& y + shapes[i].device.height <= shelf.y + shelf.height
                &&& y + shapes[i].device.height <= shelf.y || (y == shelf.y && x
                    + shapes[i].device.width <= shelf.x && shelf.depth == Some(shapes[i].depth))
                &&& order.take(n).contains(i)
            },
        }
    &&& forall|i: int, j: int|
        0 <= i < j < shapes.len() && (#[trigger] shelf.placements[i]) is Some && (
        #[trigger] shelf.placements[j]) is Some ==> tiles_are_apart(
            tile_of(shapes[i], shelf.placements[i]->0),
            tile_of(shapes[j], shelf.placements[j]->0),
        )
    &&& forall|i: int, j: int|
        0 <= i < shapes.len() && 0 <= j < shapes.len() && (#[trigger] shelf.placements[i]) is Some
            && (#[trigger] shelf.placements[j]) is Some && shapes[i].depth != shapes[j].depth
            ==> rows_are_apart(
            tile_of(shapes[i], shelf.placements[i]->0),
            tile_of(shapes[j], shelf.placements[j]->0),
        )
    &&& shelf.all_fit == forall|k: int|
        0 <= k < n ==> shelf.placements[#[trigger] order[k]] is Some
}

pub open spec fn atlas_is_sane(atlas: Extent) -> bool {
    0 <= atlas.width <= ATLAS_BOUND && 0 <= atlas.height <= ATLAS_BOUND
}

proof fn lemma_shelf_step(
    shapes: Seq<ShapeModel>,
    order: Seq<int>,
    atlas: Extent,
    n: int,
    shelf: Shelf,
)
    requires
        is_packable(shapes, order),
        atlas_is_sane(atlas),
        0 <= n < order.len(),
        shelf_holds(shelf, shapes, order, atlas, n),
    ensures
        shelf_holds(shelf.placed(shapes, order[n], atlas), shapes, order, atlas, n + 1),
{
    reveal(is_packable);
    reveal(shelf_holds);
    let index = order[n];
    let shape = shapes[index];
    let next = shelf.placed(shapes, index, atlas);
    assert(!shape.device.encloses_nothing());
    let (width, height) = (shape.device.width as int, shape.device.height as int);
    assert(order.take(n + 1)[n] == index);
    assert forall|i: int| order.take(n).contains(i) implies order.take(n + 1).contains(i) by {
        let k = choose|k: int| 0 <= k < order.take(n).len() && order.take(n)[k] == i;
        assert(order.take(n + 1)[k] == i);
    }
    // A tile is packed once, so it has not been placed yet.
    assert(shelf.placements[index] is None) by {
        if shelf.placements[index] is Some {
            assert(order.take(n).contains(index));
            let k = choose|k: int| 0 <= k < n && order.take(n)[k] == index;
            assert(order[k] == order[n]);
        }
    }
    let fits = width <= atlas.width && height <= atlas.height;
    let on = shelf.for_tile(shape, atlas);
    if fits && on.y + height <= atlas.height {
        assert forall|i: int| 0 <= i < shapes.len() implies match #[trigger] next.placements[i] {
            None => true,
            Some((x, y)) => {
                &&& 0 <= x && x + shapes[i].device.width <= atlas.width
                &&& 0 <= y && y + shapes[i].device.height <= atlas.height
                &&& y + shapes[i].device.height <= next.y + next.height
                &&& y + shapes[i].device.height <= next.y || (y == next.y && x
                    + shapes[i].device.width <= next.x && next.depth == Some(shapes[i].depth))
                &&& order.take(n + 1).contains(i)
            },
        } by {
            if i == index {
                assert(order.take(n + 1).contains(index));
            } else {
                assert(next.placements[i] == shelf.placements[i]);
                if shelf.placements[i] is Some {
                    assert(order.take(n).contains(i));
                    let k = choose|k: int| 0 <= k < n && order.take(n)[k] == i;
                    assert(!shapes[order[k]].device.encloses_nothing());
                }
            }
        }
        assert forall|i: int, j: int|
            0 <= i < j < shapes.len() && (#[trigger] next.placements[i]) is Some && (
            #[trigger] next.placements[j]) is Some implies tiles_are_apart(
            tile_of(shapes[i], next.placements[i]->0),
            tile_of(shapes[j], next.placements[j]->0),
        ) by {
            if i != index && j != index {
                assert(next.placements[i] == shelf.placements[i]);
                assert(next.placements[j] == shelf.placements[j]);
            } else {
                let other = if i == index {
                    j
                } else {
                    i
                };
                assert(next.placements[other] == shelf.placements[other]);
                assert(shelf.placements[other] is Some);
            }
        }
        assert forall|i: int, j: int|
            0 <= i < shapes.len() && 0 <= j < shapes.len() && (
            #[trigger] next.placements[i]) is Some && (#[trigger] next.placements[j]) is Some
                && shapes[i].depth != shapes[j].depth implies rows_are_apart(
            tile_of(shapes[i], next.placements[i]->0),
            tile_of(shapes[j], next.placements[j]->0),
        ) by {
            if i != index {
                assert(next.placements[i] == shelf.placements[i]);
            }
            if j != index {
                assert(next.placements[j] == shelf.placements[j]);
            }
        }
        assert(next.all_fit == forall|k: int|
            0 <= k < n + 1 ==> next.placements[#[trigger] order[k]] is Some) by {
            if shelf.all_fit {
                assert forall|k: int| 0 <= k < n + 1 implies next.placements[
                    #[trigger] order[k]
                ] is Some by {
                    if k < n {
                        assert(shelf.placements[order[k]] is Some);
                        assert(order[k] != order[n]);
                    }
                }
            } else {
                let k = choose|k: int|
                    0 <= k < n && !(shelf.placements[#[trigger] order[k]] is Some);
                assert(order[k] != order[n]);
                assert(!(next.placements[order[k]] is Some));
            }
        }
    } else {
        assert(next.placements == shelf.placements);
        assert(!(next.placements[order[n]] is Some));
        assert forall|i: int| 0 <= i < shapes.len() implies match #[trigger] next.placements[i] {
            None => true,
            Some((x, y)) => {
                &&& 0 <= x && x + shapes[i].device.width <= atlas.width
                &&& 0 <= y && y + shapes[i].device.height <= atlas.height
                &&& y + shapes[i].device.height <= next.y + next.height
                &&& y + shapes[i].device.height <= next.y || (y == next.y && x
                    + shapes[i].device.width <= next.x && next.depth == Some(shapes[i].depth))
                &&& order.take(n + 1).contains(i)
            },
        } by {
            assert(next.placements[i] == shelf.placements[i]);
        }
    }
}

/// What holds of a packing, up to any tile of it.
pub proof fn lemma_packed_holds(shapes: Seq<ShapeModel>, order: Seq<int>, atlas: Extent, n: nat)
    requires
        is_packable(shapes, order),
        atlas_is_sane(atlas),
        n <= order.len(),
    ensures
        shelf_holds(packed(shapes, order, atlas, n), shapes, order, atlas, n as int),
    decreases n,
{
    reveal(is_packable);
    reveal(shelf_holds);
    if n > 0 {
        lemma_packed_holds(shapes, order, atlas, (n - 1) as nat);
        lemma_shelf_step(
            shapes,
            order,
            atlas,
            n - 1,
            packed(shapes, order, atlas, (n - 1) as nat),
        );
    }
}

/// A clip that is packed exists, and asks for a tile.
pub proof fn lemma_order_member(shapes: Seq<ShapeModel>, order: Seq<int>, k: int)
    requires
        order_holds(shapes, order),
        0 <= k < order.len(),
    ensures
        0 <= order[k] < shapes.len(),
        shapes[order[k]].wants_tile(),
{
    reveal(order_holds);
}

/// There is a placement for every clip, or a note that it was left out.
pub proof fn lemma_placements_len(shapes: Seq<ShapeModel>, order: Seq<int>, atlas: Extent)
    requires
        is_packable(shapes, order),
        atlas_is_sane(atlas),
    ensures
        packing(shapes, order, atlas).placements.len() == shapes.len(),
{
    lemma_packed_holds(shapes, order, atlas, order.len());
    reveal(shelf_holds);
}

/// A clip that is placed was packed, and its tile lies within the atlas.
pub proof fn lemma_placement(
    shapes: Seq<ShapeModel>,
    order: Seq<int>,
    atlas: Extent,
    i: int,
) -> (k: int)
    requires
        order_holds(shapes, order),
        atlas_is_sane(atlas),
        0 <= i < shapes.len(),
        packing(shapes, order, atlas).placements[i] is Some,
    ensures
        0 <= k < order.len(),
        order[k] == i,
        shapes[i].wants_tile(),
        ({
            let (x, y) = packing(shapes, order, atlas).placements[i]->0;
            &&& 0 <= x && x + shapes[i].device.width <= atlas.width
            &&& 0 <= y && y + shapes[i].device.height <= atlas.height
        }),
{
    lemma_order_is_packable(shapes, order);
    placed_tiles_lie_in_the_atlas(shapes, order, atlas, i);
    reveal(order_holds);
    choose|k: int| 0 <= k < order.len() && order[k] == i
}

pub open spec fn placements_view(placements: Seq<Option<(i32, i32)>>) -> Seq<Option<(int, int)>> {
    placements.map_values(
        |p: Option<(i32, i32)>|
            match p {
                None => None,
                Some((x, y)) => Some((x as int, y as int)),
            },
    )
}

/// Give each clip of `order` a tile of `atlas`, and say whether all of them got
/// one.
///
/// Tiles are put side by side on shelves. Every tile is gone at the end of the
/// frame, so nothing is ever freed. A change of depth starts a new shelf, so
/// that a level's tiles lie together.
pub fn pack_clip_tiles(
    shapes: &Vec<ClipShape>,
    order: &Vec<usize>,
    atlas: Extent,
) -> (r: (Vec<Option<(i32, i32)>>, bool))
    requires
        is_packable(shapes_view(shapes@), as_ints(order@)),
        atlas_is_sane(atlas),
    ensures
        placements_view(r.0@) == packing(
            shapes_view(shapes@),
            as_ints(order@),
            atlas,
        ).placements,
        r.1 == packing(shapes_view(shapes@), as_ints(order@), atlas).all_fit,
{
    reveal(is_packable);
    reveal(shelf_holds);
    let ghost models = shapes_view(shapes@);
    let ghost places = as_ints(order@);
    let mut placements: Vec<Option<(i32, i32)>> = Vec::new();
    let mut index: usize = 0;
    while index < shapes.len()
        invariant
            index <= shapes@.len(),
            placements@.len() == index,
            forall|i: int| 0 <= i < index ==> (#[trigger] placements@[i]) is None,
        decreases shapes@.len() - index,
    {
        placements.push(None);
        index += 1;
    }
    let mut all_fit = true;
    let mut x: i32 = 0;
    let mut y: i32 = 0;
    let mut shelf_height: i32 = 0;
    let mut shelf_depth: Option<usize> = None;
    let mut n: usize = 0;
    assert(placements_view(placements@) =~= Shelf::begun(models.len()).placements);
    while n < order.len()
        invariant
            n <= order@.len(),
            models == shapes_view(shapes@),
            places == as_ints(order@),
            is_packable(models, places),
            atlas_is_sane(atlas),
            placements@.len() == shapes@.len(),
            packed(models, places, atlas, n as nat) == (Shelf {
                x: x as int,
                y: y as int,
                height: shelf_height as int,
                depth: match shelf_depth {
                    None => None,
                    Some(depth) => Some(depth as int),
                },
                placements: placements_view(placements@),
                all_fit,
            }),
        decreases order@.len() - n,
    {
        let at: usize = order[n];
        proof {
            reveal(is_packable);
            reveal(shelf_holds);
            lemma_packed_holds(models, places, atlas, n as nat);
            assert(places[n as int] == at);
            assert(!models[at as int].device.encloses_nothing());
        }
        let shape = &shapes[at];
        assert(models[at as int] == shape@);
        let width: i32 = shape.device.width;
        let height: i32 = shape.device.height;
        if width > atlas.width || height > atlas.height {
            all_fit = false;
        } else {
            let same_depth = match shelf_depth {
                None => false,
                Some(depth) => depth == shape.depth,
            };
            if !same_depth || x + width > atlas.width {
                x = 0;
                y = y + shelf_height;
                shelf_height = 0;
                shelf_depth = Some(shape.depth);
            }
            if y + height > atlas.height {
                all_fit = false;
            } else {
                let ghost prior = placements@;
                placements.set(at, Some((x, y)));
                assert(placements_view(placements@) =~= placements_view(prior).update(
                    at as int,
                    Some((x as int, y as int)),
                ));
                x = x + width;
                if height > shelf_height {
                    shelf_height = height;
                }
            }
        }
        n += 1;
        assert(packed(models, places, atlas, n as nat) =~= Shelf {
            x: x as int,
            y: y as int,
            height: shelf_height as int,
            depth: match shelf_depth {
                None => None,
                Some(depth) => Some(depth as int),
            },
            placements: placements_view(placements@),
            all_fit,
        });
    }
    (placements, all_fit)
}

/// The largest width and height that some tiles need.
pub open spec fn required(shapes: Seq<ShapeModel>, order: Seq<int>, n: nat) -> Extent
    decreases n,
{
    if n == 0 {
        Extent::zero()
    } else {
        required(shapes, order, (n - 1) as nat).larger(shapes[order[n - 1]].device.size_of())
    }
}

/// The atlas that packing begins with: one that holds the largest tile.
pub open spec fn first_atlas(shapes: Seq<ShapeModel>, order: Seq<int>) -> Extent {
    let needed = required(shapes, order, order.len());
    Extent {
        width: min(needed.width as int, CLIP_ATLAS_TEXTURE_LIMIT as int) as i32,
        height: min(needed.height as int, CLIP_ATLAS_TEXTURE_LIMIT as int) as i32,
    }.rounded(CLIP_TEXTURE_QUANTUM as int)
}

/// How far packing may grow an atlas.
pub open spec fn atlas_cap(atlas: Extent) -> Extent {
    Extent {
        width: max(atlas.width as int, CLIP_ATLAS_MAX_SIZE as int) as i32,
        height: max(atlas.height as int, CLIP_ATLAS_MAX_SIZE as int) as i32,
    }
}

/// The next larger atlas: the shorter side doubled, as far as `cap` allows.
pub open spec fn next_atlas(atlas: Extent, cap: Extent) -> Option<Extent> {
    if atlas.height <= atlas.width && atlas.height < cap.height {
        Some(Extent { height: min(atlas.height * 2, cap.height as int) as i32, ..atlas })
    } else if atlas.width < cap.width {
        Some(Extent { width: min(atlas.width * 2, cap.width as int) as i32, ..atlas })
    } else {
        None
    }
}

/// The first atlas from `atlas` on that holds every tile, or the largest there
/// is.
pub open spec fn grown_atlas(
    shapes: Seq<ShapeModel>,
    order: Seq<int>,
    atlas: Extent,
    cap: Extent,
) -> Extent
    decreases (cap.width - atlas.width) + (cap.height - atlas.height),
    when 0 < atlas.width <= cap.width <= ATLAS_BOUND && 0 < atlas.height <= cap.height <= ATLAS_BOUND
{
    if packing(shapes, order, atlas).all_fit {
        atlas
    } else {
        match next_atlas(atlas, cap) {
            None => atlas,
            Some(next) => grown_atlas(shapes, order, next, cap),
        }
    }
}

/// The smallest atlas that the tiles are packed into.
pub open spec fn least_atlas(shapes: Seq<ShapeModel>, order: Seq<int>) -> Extent {
    let first = first_atlas(shapes, order);
    grown_atlas(shapes, order, first, atlas_cap(first))
}

proof fn lemma_required(shapes: Seq<ShapeModel>, order: Seq<int>, n: nat)
    requires
        n <= order.len(),
    ensures
        0 <= required(shapes, order, n).width,
        0 <= required(shapes, order, n).height,
        forall|k: int|
            0 <= k < n ==> !required(shapes, order, n).falls_short_of(
                shapes[#[trigger] order[k]].device.size_of(),
            ),
    decreases n,
{
    if n > 0 {
        lemma_required(shapes, order, (n - 1) as nat);
    }
}

/// The atlas that packing ends with is no smaller than the one it began with,
/// and no larger than it may grow.
pub proof fn lemma_grown_atlas(
    shapes: Seq<ShapeModel>,
    order: Seq<int>,
    atlas: Extent,
    cap: Extent,
)
    requires
        0 < atlas.width <= cap.width <= ATLAS_BOUND,
        0 < atlas.height <= cap.height <= ATLAS_BOUND,
    ensures
        ({
            let r = grown_atlas(shapes, order, atlas, cap);
            &&& atlas.width <= r.width <= cap.width
            &&& atlas.height <= r.height <= cap.height
            &&& packing(shapes, order, r).all_fit || r == cap || (r.width == cap.width
                && r.height > r.width)
        }),
    decreases (cap.width - atlas.width) + (cap.height - atlas.height),
{
    if !packing(shapes, order, atlas).all_fit {
        if let Some(next) = next_atlas(atlas, cap) {
            lemma_grown_atlas(shapes, order, next, cap);
        }
    }
}

pub proof fn lemma_first_atlas(shapes: Seq<ShapeModel>, order: Seq<int>)
    ensures
        256 <= first_atlas(shapes, order).width <= CLIP_ATLAS_TEXTURE_LIMIT,
        256 <= first_atlas(shapes, order).height <= CLIP_ATLAS_TEXTURE_LIMIT,
{
    lemma_required(shapes, order, order.len());
}

/// The smallest atlas this frame's tiles fit in, where they landed in it, and
/// whether they all fit.
///
/// Each side starts at what the largest tile needs and doubles while tiles do
/// not fit. A tile that alone needs more than packing may ask for still gets an
/// atlas that holds it.
pub fn smallest_atlas(
    shapes: &Vec<ClipShape>,
    order: &Vec<usize>,
) -> (r: (Extent, Vec<Option<(i32, i32)>>, bool))
    requires
        is_packable(shapes_view(shapes@), as_ints(order@)),
    ensures
        r.0 == least_atlas(shapes_view(shapes@), as_ints(order@)),
        placements_view(r.1@) == packing(
            shapes_view(shapes@),
            as_ints(order@),
            r.0,
        ).placements,
        r.2 == packing(shapes_view(shapes@), as_ints(order@), r.0).all_fit,
        256 <= r.0.width <= CLIP_ATLAS_TEXTURE_LIMIT,
        256 <= r.0.height <= CLIP_ATLAS_TEXTURE_LIMIT,
{
    reveal(is_packable);
    let ghost models = shapes_view(shapes@);
    let ghost places = as_ints(order@);
    let mut needed = Extent::none();
    let mut n: usize = 0;
    while n < order.len()
        invariant
            n <= order@.len(),
            models == shapes_view(shapes@),
            places == as_ints(order@),
            is_packable(models, places),
            needed == required(models, places, n as nat),
        decreases order@.len() - n,
    {
        let at: usize = order[n];
        reveal(is_packable);
        assert(places[n as int] == at);
        assert(!models[at as int].device.encloses_nothing());
        assert(models[at as int] == shapes@[at as int]@);
        needed = needed.max(shapes[at].device.extent());
        n += 1;
    }
    let mut atlas = Extent {
        width: if needed.width <= CLIP_ATLAS_TEXTURE_LIMIT {
            needed.width
        } else {
            CLIP_ATLAS_TEXTURE_LIMIT
        },
        height: if needed.height <= CLIP_ATLAS_TEXTURE_LIMIT {
            needed.height
        } else {
            CLIP_ATLAS_TEXTURE_LIMIT
        },
    }.quantized();
    let cap = Extent {
        width: if atlas.width >= CLIP_ATLAS_MAX_SIZE { atlas.width } else { CLIP_ATLAS_MAX_SIZE },
        height: if atlas.height >= CLIP_ATLAS_MAX_SIZE {
            atlas.height
        } else {
            CLIP_ATLAS_MAX_SIZE
        },
    };
    proof {
        lemma_first_atlas(models, places);
        assert(atlas == first_atlas(models, places));
        assert(cap == atlas_cap(atlas));
        lemma_grown_atlas(models, places, atlas, cap);
    }
    let ghost least = least_atlas(models, places);
    let packed = pack_clip_tiles(shapes, order, atlas);
    let mut placements = packed.0;
    let mut all_fit = packed.1;
    let mut stuck = false;
    while !all_fit && !stuck
        invariant
            models == shapes_view(shapes@),
            places == as_ints(order@),
            is_packable(models, places),
            256 <= atlas.width <= cap.width <= CLIP_ATLAS_TEXTURE_LIMIT,
            256 <= atlas.height <= cap.height <= CLIP_ATLAS_TEXTURE_LIMIT,
            least == grown_atlas(models, places, atlas, cap),
            placements_view(placements@) == packing(models, places, atlas).placements,
            all_fit == packing(models, places, atlas).all_fit,
            stuck ==> !all_fit && next_atlas(atlas, cap) is None,
        decreases (cap.width - atlas.width) + (cap.height - atlas.height) + if stuck {
            0int
        } else {
            1
        },
    {
        if atlas.height <= atlas.width && atlas.height < cap.height {
            let doubled: i32 = atlas.height * 2;
            atlas.height = if doubled <= cap.height { doubled } else { cap.height };
            let packed = pack_clip_tiles(shapes, order, atlas);
            placements = packed.0;
            all_fit = packed.1;
        } else if atlas.width < cap.width {
            let doubled: i32 = atlas.width * 2;
            atlas.width = if doubled <= cap.width { doubled } else { cap.width };
            let packed = pack_clip_tiles(shapes, order, atlas);
            placements = packed.0;
            all_fit = packed.1;
        } else {
            stuck = true;
        }
    }
    (atlas, placements, all_fit)
}

/// Every tile that is placed lies within the atlas.
pub proof fn placed_tiles_lie_in_the_atlas(
    shapes: Seq<ShapeModel>,
    order: Seq<int>,
    atlas: Extent,
    i: int,
)
    requires
        is_packable(shapes, order),
        atlas_is_sane(atlas),
        0 <= i < shapes.len(),
        packing(shapes, order, atlas).placements[i] is Some,
    ensures
        ({
            let (x, y) = packing(shapes, order, atlas).placements[i]->0;
            &&& 0 <= x && x + shapes[i].device.width <= atlas.width
            &&& 0 <= y && y + shapes[i].device.height <= atlas.height
        }),
        order.contains(i),
{
    reveal(is_packable);
    reveal(shelf_holds);
    lemma_packed_holds(shapes, order, atlas, order.len());
    assert(order.take(order.len() as int) =~= order);
}

/// No two placed tiles share a pixel.
pub proof fn placed_tiles_are_apart(
    shapes: Seq<ShapeModel>,
    order: Seq<int>,
    atlas: Extent,
    i: int,
    j: int,
)
    requires
        is_packable(shapes, order),
        atlas_is_sane(atlas),
        0 <= i < j < shapes.len(),
        packing(shapes, order, atlas).placements[i] is Some,
        packing(shapes, order, atlas).placements[j] is Some,
    ensures
        tiles_are_apart(
            tile_of(shapes[i], packing(shapes, order, atlas).placements[i]->0),
            tile_of(shapes[j], packing(shapes, order, atlas).placements[j]->0),
        ),
{
    reveal(is_packable);
    reveal(shelf_holds);
    lemma_packed_holds(shapes, order, atlas, order.len());
}

/// Tiles of different depth never share a row of the atlas.
pub proof fn depths_never_share_a_row(
    shapes: Seq<ShapeModel>,
    order: Seq<int>,
    atlas: Extent,
    i: int,
    j: int,
)
    requires
        is_packable(shapes, order),
        atlas_is_sane(atlas),
        0 <= i < shapes.len(),
        0 <= j < shapes.len(),
        shapes[i].depth != shapes[j].depth,
        packing(shapes, order, atlas).placements[i] is Some,
        packing(shapes, order, atlas).placements[j] is Some,
    ensures
        rows_are_apart(
            tile_of(shapes[i], packing(shapes, order, atlas).placements[i]->0),
            tile_of(shapes[j], packing(shapes, order, atlas).placements[j]->0),
        ),
{
    reveal(shelf_holds);
    lemma_packed_holds(shapes, order, atlas, order.len());
}

/// No clip is placed but those that are listed, and everything fits exactly
/// when all of those are.
pub proof fn only_listed_clips_are_placed(shapes: Seq<ShapeModel>, order: Seq<int>, atlas: Extent)
    requires
        is_packable(shapes, order),
        atlas_is_sane(atlas),
    ensures
        ({
            let shelf = packing(shapes, order, atlas);
            &&& shelf.placements.len() == shapes.len()
            &&& forall|i: int|
                0 <= i < shapes.len() && !order.contains(i) ==> (
                #[trigger] shelf.placements[i]) is None
            &&& shelf.all_fit == forall|k: int|
                0 <= k < order.len() ==> shelf.placements[#[trigger] order[k]] is Some
        }),
{
    reveal(shelf_holds);
    lemma_packed_holds(shapes, order, atlas, order.len());
    assert(order.take(order.len() as int) =~= order);
}

/// Everything fits exactly when every clip that asks for a tile has one.
pub proof fn all_fit_means_every_tile_is_placed(
    shapes: Seq<ShapeModel>,
    order: Seq<int>,
    atlas: Extent,
)
    requires
        order_holds(shapes, order),
        atlas_is_sane(atlas),
    ensures
        packing(shapes, order, atlas).all_fit == forall|i: int|
            0 <= i < shapes.len() && (#[trigger] shapes[i]).wants_tile() ==> packing(
                shapes,
                order,
                atlas,
            ).placements[i] is Some,
{
    reveal(order_holds);
    reveal(shelf_holds);
    lemma_order_is_packable(shapes, order);
    lemma_packed_holds(shapes, order, atlas, order.len());
    let shelf = packing(shapes, order, atlas);
    if shelf.all_fit {
        assert forall|i: int| 0 <= i < shapes.len() && (#[trigger] shapes[i]).wants_tile() implies
            shelf.placements[i] is Some by {
            assert(order.contains(i));
            let k = choose|k: int| 0 <= k < order.len() && order[k] == i;
            assert(shelf.placements[order[k]] is Some);
        }
    } else {
        let k = choose|k: int|
            0 <= k < order.len() && !(shelf.placements[#[trigger] order[k]] is Some);
        assert(shapes[order[k]].wants_tile());
    }
}

/// A tile no larger than a texture may be is never too large for the atlas by
/// itself, however far it exceeds what packing may ask for.
pub proof fn the_atlas_holds_the_largest_tile(shapes: Seq<ShapeModel>, order: Seq<int>, k: int)
    requires
        is_packable(shapes, order),
        0 <= k < order.len(),
        shapes[order[k]].device.width <= CLIP_ATLAS_TEXTURE_LIMIT,
        shapes[order[k]].device.height <= CLIP_ATLAS_TEXTURE_LIMIT,
    ensures
        shapes[order[k]].device.width <= least_atlas(shapes, order).width,
        shapes[order[k]].device.height <= least_atlas(shapes, order).height,
{
    reveal(is_packable);
    lemma_required(shapes, order, order.len());
    lemma_first_atlas(shapes, order);
    let first = first_atlas(shapes, order);
    lemma_grown_atlas(shapes, order, first, atlas_cap(first));
    assert(!required(shapes, order, order.len()).falls_short_of(
        shapes[order[k]].device.size_of(),
    ));
}

} // verus!
