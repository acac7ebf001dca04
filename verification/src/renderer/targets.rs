//! The textures that groups and their filters are drawn into, and the memory
//! they may hold.

use crate::renderer::extent::{
    quantized_group_extent, rounding_up_is_least, BudgetModel, DeviceRect, Extent, TextureBudget,
    GROUP_TEXTURE_QUANTUM, GROUP_TEXTURE_SHRINK_FRAMES,
};
use crate::renderer::notice::Notice;
use crate::fixed::max;
use vstd::prelude::*;

verus! {

/// How deep isolated groups may nest before the innermost ones are painted
/// straight onto what is underneath them.
pub const MAX_GROUP_DEPTH: usize = 8;

/// The most memory the group targets may hold between them.
pub const GROUP_TARGET_BUDGET_BYTES: u64 = 134_217_728;

/// How many working textures a filter may hold at once.
pub const MAX_FILTER_SCRATCH: usize = 5;

/// The most memory the working textures of filters may hold between them.
pub const FILTER_SCRATCH_BUDGET_BYTES: u64 = 134_217_728;

/// A texture that is drawn into.
#[derive(Clone, Copy, Debug, PartialEq, Eq, Structural)]
pub enum Texture {
    /// The frame's own.
    Window,
    /// The target of the groups at this depth.
    Group(usize),
    /// A working texture of the filters.
    Scratch(usize),
}

/// The target of the groups at one nesting depth.
#[derive(Debug)]
pub struct GroupTargetLevel {
    /// Whether there is a texture.
    pub has_texture: bool,
    /// The size of the texture, or nothing where there is none.
    pub allocated: Extent,
    /// What this frame started from.
    pub floor: Extent,
    /// The largest this depth has been asked for this frame.
    pub needed: Extent,
    pub budget: TextureBudget<240>,
}

/// The render targets isolated groups are drawn into: one for each nesting
/// depth, used by every group at that depth in turn.
#[derive(Debug)]
pub struct GroupTargets {
    pub levels: Vec<GroupTargetLevel>,
    /// What this frame has had to say. One notice in a frame: whatever makes
    /// one group fall back usually makes every group fall back.
    pub reported: Option<Notice>,
}

/// A level, as what it says.
pub struct LevelModel {
    pub has_texture: bool,
    pub allocated: Extent,
    pub floor: Extent,
    pub needed: Extent,
    pub budget: BudgetModel,
}

/// The targets, as what they say.
#[verifier::ext_equal]
pub struct TargetsModel {
    pub levels: Seq<LevelModel>,
    pub reported: Option<Notice>,
}

impl View for GroupTargetLevel {
    type V = LevelModel;

    open spec fn view(&self) -> LevelModel {
        LevelModel {
            has_texture: self.has_texture,
            allocated: self.allocated,
            floor: self.floor,
            needed: self.needed,
            budget: self.budget@,
        }
    }
}

pub open spec fn levels_view(levels: Seq<GroupTargetLevel>) -> Seq<LevelModel> {
    levels.map_values(|level: GroupTargetLevel| level@)
}

impl View for GroupTargets {
    type V = TargetsModel;

    open spec fn view(&self) -> TargetsModel {
        TargetsModel { levels: levels_view(self.levels@), reported: self.reported }
    }
}

/// What the first `n` levels hold, in bytes, but for the level `skip`.
pub open spec fn held_but(levels: Seq<LevelModel>, skip: int, n: nat) -> int
    decreases n,
{
    if n == 0 {
        0
    } else {
        held_but(levels, skip, (n - 1) as nat) + if n - 1 == skip {
            0
        } else {
            levels[n - 1].allocated.cost()
        }
    }
}

impl LevelModel {
    pub open spec fn fresh() -> LevelModel {
        LevelModel {
            has_texture: false,
            allocated: Extent::zero(),
            floor: Extent::zero(),
            needed: Extent::zero(),
            budget: BudgetModel { current: Extent::zero(), peak: Extent::zero(), frames: 0 },
        }
    }

    /// Whether a level that has no texture is charged for none, and its
    /// countdown is within bounds.
    pub open spec fn wf(self) -> bool {
        &&& !self.has_texture ==> self.allocated == Extent::zero()
        &&& 0 <= self.budget.frames <= GROUP_TEXTURE_SHRINK_FRAMES
    }

    /// The level at the start of a frame: a texture larger than the budget
    /// starts from is given back.
    pub open spec fn begun(self) -> LevelModel {
        let budget = self.budget.floored(GROUP_TEXTURE_SHRINK_FRAMES as int);
        let gives_back = budget.current.falls_short_of(self.allocated);
        LevelModel {
            has_texture: self.has_texture && !gives_back,
            allocated: if gives_back {
                Extent::zero()
            } else {
                self.allocated
            },
            floor: budget.current,
            needed: Extent::zero(),
            budget,
        }
    }

    /// The level at the end of a frame.
    pub open spec fn ended(self) -> LevelModel {
        LevelModel { budget: self.budget.observed(self.allocated, self.needed), ..self }
    }

    /// How large a texture the level wants, to hold `required` as well.
    pub open spec fn wanted(self, required: Extent) -> Extent {
        self.floor.larger(required).larger(self.allocated)
    }
}

impl TargetsModel {
    pub open spec fn empty() -> TargetsModel {
        TargetsModel { levels: Seq::empty(), reported: None }
    }

    /// What the textures hold between them, in bytes.
    pub open spec fn held(self) -> int {
        held_but(self.levels, -1, self.levels.len())
    }

    /// Whether the levels are sound and hold no more than `budget` bytes.
    pub open spec fn wf(self, budget: int) -> bool {
        &&& forall|i: int| 0 <= i < self.levels.len() ==> (#[trigger] self.levels[i]).wf()
        &&& self.held() <= budget
    }

    /// Whether every countdown still has a frame to go.
    pub open spec fn is_counting(self) -> bool {
        forall|i: int|
            0 <= i < self.levels.len() ==> (#[trigger] self.levels[i]).budget.frames
                < GROUP_TEXTURE_SHRINK_FRAMES
    }

    pub open spec fn begun(self) -> TargetsModel {
        TargetsModel {
            levels: self.levels.map_values(|level: LevelModel| level.begun()),
            reported: None,
        }
    }

    pub open spec fn ended(self) -> TargetsModel {
        TargetsModel {
            levels: self.levels.map_values(|level: LevelModel| level.ended()),
            reported: self.reported,
        }
    }

    /// The targets with a notice, unless there was one already.
    pub open spec fn having_said(self, notice: Notice) -> TargetsModel {
        TargetsModel {
            reported: if self.reported is Some {
                self.reported
            } else {
                Some(notice)
            },
            ..self
        }
    }

    /// The targets with levels down to `depth`.
    pub open spec fn deepened(self, depth: nat) -> TargetsModel {
        TargetsModel {
            levels: if self.levels.len() > depth {
                self.levels
            } else {
                self.levels + Seq::new(
                    (depth + 1 - self.levels.len()) as nat,
                    |i: int| LevelModel::fresh(),
                )
            },
            ..self
        }
    }

    /// What a target of so much costs at `depth` beside the others, in bytes.
    pub open spec fn cost_with(self, depth: nat, extent: Extent) -> int {
        held_but(self.levels, depth as int, self.levels.len()) + extent.cost()
    }

    /// Whether a target that holds `required` at `depth` has to be made anew.
    pub open spec fn makes_anew(self, depth: nat, required: Extent) -> bool {
        let level = self.levels[depth as int];
        level.allocated != level.wanted(required) || !level.has_texture
    }

    /// The targets after one that holds `rect` is asked for at `depth`, and how
    /// large the one granted is: `None` where it would break the budget.
    #[verifier::opaque]
    pub open spec fn acquired(
        self,
        depth: nat,
        rect: DeviceRect,
        budget: u64,
        filters: bool,
    ) -> (TargetsModel, Option<Extent>) {
        let required = rect.size_of().rounded(GROUP_TEXTURE_QUANTUM as int);
        let all = self.deepened(depth);
        let level = all.levels[depth as int];
        let wanted = level.wanted(required);
        let asked = LevelModel { needed: level.needed.larger(required), ..level };
        if !all.makes_anew(depth, required) {
            (all.with_level(depth, asked), Some(wanted))
        } else if all.cost_with(depth, wanted) > budget {
            (
                all.with_level(depth, asked).having_said(
                    Notice::OverBudget { wanted, budget, filters },
                ),
                None,
            )
        } else {
            (
                all.with_level(
                    depth,
                    LevelModel { has_texture: true, allocated: wanted, ..asked },
                ),
                Some(wanted),
            )
        }
    }

    pub open spec fn with_level(self, depth: nat, level: LevelModel) -> TargetsModel {
        TargetsModel { levels: self.levels.update(depth as int, level), ..self }
    }
}

proof fn lemma_held_same(a: Seq<LevelModel>, b: Seq<LevelModel>, skip: int, n: nat)
    requires
        n <= a.len(),
        n <= b.len(),
        forall|i: int|
            0 <= i < n && i != skip ==> (#[trigger] a[i]).allocated == (#[trigger] b[i]).allocated,
    ensures
        held_but(a, skip, n) == held_but(b, skip, n),
    decreases n,
{
    if n > 0 {
        lemma_held_same(a, b, skip, (n - 1) as nat);
        if n - 1 != skip {
            assert(a[n - 1].allocated == b[n - 1].allocated);
        }
    }
}

proof fn lemma_cost_is_positive(e: Extent)
    ensures
        e.cost() >= 0,
{
    let w = max(e.width as int, 0);
    let h = max(e.height as int, 0);
    assert(w * h * 4 >= 0) by (nonlinear_arith)
        requires
            w >= 0,
            h >= 0,
    ;
}

proof fn lemma_nothing_is_free()
    ensures
        Extent::zero().cost() == 0,
{
    let none = Extent::zero();
    assert(max(none.width as int, 0) == 0);
    assert(0 * max(none.height as int, 0) * 4 == 0) by (nonlinear_arith);
}

proof fn lemma_held_splits(levels: Seq<LevelModel>, skip: int, n: nat)
    requires
        n <= levels.len(),
    ensures
        held_but(levels, skip, n) >= 0,
        held_but(levels, -1, n) == held_but(levels, skip, n) + if 0 <= skip < n {
            levels[skip].allocated.cost()
        } else {
            0
        },
    decreases n,
{
    if n > 0 {
        lemma_held_splits(levels, skip, (n - 1) as nat);
        lemma_cost_is_positive(levels[n - 1].allocated);
    }
}

proof fn lemma_held_grows(levels: Seq<LevelModel>, skip: int, n: nat, m: nat)
    requires
        n <= m <= levels.len(),
    ensures
        held_but(levels, skip, n) <= held_but(levels, skip, m),
    decreases m,
{
    if n < m {
        lemma_held_grows(levels, skip, n, (m - 1) as nat);
        lemma_cost_is_positive(levels[m - 1].allocated);
    }
}

proof fn lemma_held_shrinks(a: Seq<LevelModel>, b: Seq<LevelModel>, n: nat)
    requires
        n <= a.len(),
        n <= b.len(),
        forall|i: int|
            0 <= i < n ==> (#[trigger] a[i]).allocated == (#[trigger] b[i]).allocated
                || a[i].allocated == Extent::zero(),
    ensures
        held_but(a, -1, n) <= held_but(b, -1, n),
    decreases n,
{
    if n > 0 {
        lemma_held_shrinks(a, b, (n - 1) as nat);
        lemma_cost_is_positive(b[n - 1].allocated);
        assert(a[n - 1].allocated == b[n - 1].allocated || a[n - 1].allocated == Extent::zero());
        lemma_nothing_is_free();
    }
}

proof fn lemma_deepened(targets: TargetsModel, depth: nat, budget: int)
    requires
        targets.wf(budget),
    ensures
        targets.deepened(depth).wf(budget),
        targets.deepened(depth).held() == targets.held(),
        depth < targets.deepened(depth).levels.len(),
        targets.levels.len() <= targets.deepened(depth).levels.len(),
{
    let all = targets.deepened(depth);
    assert forall|i: int| 0 <= i < all.levels.len() implies (#[trigger] all.levels[i]).wf() by {
        if i < targets.levels.len() {
            assert(all.levels[i] == targets.levels[i]);
        }
    }
    lemma_held_same(all.levels, targets.levels, -1, targets.levels.len());
    lemma_tail_is_free(all.levels, targets.levels.len(), all.levels.len());
}

proof fn lemma_tail_is_free(levels: Seq<LevelModel>, from: nat, n: nat)
    requires
        from <= n <= levels.len(),
        forall|i: int|
            from <= i < n ==> (#[trigger] levels[i]).allocated == Extent::zero(),
    ensures
        held_but(levels, -1, n) == held_but(levels, -1, from),
    decreases n,
{
    if from < n {
        lemma_tail_is_free(levels, from, (n - 1) as nat);
        assert(levels[n - 1].allocated == Extent::zero());
        lemma_nothing_is_free();
    }
}

/// Targets that keep within their budget keep within it whatever is asked of
/// them, and one that is granted holds what it was asked for.
pub proof fn targets_keep_to_their_budget(
    targets: TargetsModel,
    depth: nat,
    rect: DeviceRect,
    budget: u64,
    filters: bool,
)
    requires
        targets.wf(budget as int),
        rect.width <= i32::MAX - 255,
        rect.height <= i32::MAX - 255,
    ensures
        targets.acquired(depth, rect, budget, filters).0.wf(budget as int),
        targets.is_counting() ==> targets.acquired(depth, rect, budget, filters).0.is_counting(),
        targets.acquired(depth, rect, budget, filters).1 matches Some(extent) ==> {
            &&& !extent.falls_short_of(rect.size_of())
            &&& targets.acquired(depth, rect, budget, filters).0.levels[depth as int].has_texture
            &&& targets.acquired(depth, rect, budget, filters).0.levels[depth as int].allocated
                == extent
        },
{
    reveal(TargetsModel::acquired);
    let required = rect.size_of().rounded(GROUP_TEXTURE_QUANTUM as int);
    rounding_up_is_least(rect.size_of().width as int);
    rounding_up_is_least(rect.size_of().height as int);
    assert(!required.falls_short_of(rect.size_of()));
    let all = targets.deepened(depth);
    lemma_deepened(targets, depth, budget as int);
    let level = all.levels[depth as int];
    assert(level.wf());
    let wanted = level.wanted(required);
    let (after, granted) = targets.acquired(depth, rect, budget, filters);
    assert forall|i: int| 0 <= i < after.levels.len() implies (#[trigger] after.levels[i]).wf() by {
        assert(all.levels[i].wf());
    }
    if targets.is_counting() {
        assert forall|i: int| 0 <= i < after.levels.len() implies (
        #[trigger] after.levels[i]).budget.frames < GROUP_TEXTURE_SHRINK_FRAMES by {
            if i < targets.levels.len() {
                assert(targets.levels[i].budget.frames < GROUP_TEXTURE_SHRINK_FRAMES);
            }
        }
    }
    lemma_held_same(after.levels, all.levels, depth as int, all.levels.len());
    lemma_held_splits(after.levels, depth as int, all.levels.len());
    lemma_held_splits(all.levels, depth as int, all.levels.len());
}

/// Targets that keep within their budget do so at the start of a frame and at
/// its end.
pub proof fn frames_keep_targets_to_their_budget(targets: TargetsModel, budget: int)
    requires
        targets.wf(budget),
    ensures
        targets.begun().wf(budget),
        targets.begun().is_counting(),
        targets.is_counting() ==> targets.ended().wf(budget),
{
    if targets.is_counting() {
        assert forall|i: int| 0 <= i < targets.levels.len() implies (
        #[trigger] targets.ended().levels[i]).wf() by {
            assert(targets.levels[i].wf());
        }
    }
    let begun = targets.begun();
    assert forall|i: int| 0 <= i < begun.levels.len() implies (#[trigger] begun.levels[i]).wf() by {
        assert(targets.levels[i].wf());
    }
    lemma_held_shrinks(begun.levels, targets.levels, targets.levels.len());
    lemma_held_same(targets.ended().levels, targets.levels, -1, targets.levels.len());
}

impl Default for GroupTargetLevel {
    fn default() -> (r: Self)
        ensures
            r@ == LevelModel::fresh(),
    {
        GroupTargetLevel {
            has_texture: false,
            allocated: Extent::none(),
            floor: Extent::none(),
            needed: Extent::none(),
            budget: Default::default(),
        }
    }
}

impl Default for GroupTargets {
    fn default() -> (r: Self)
        ensures
            r@ == TargetsModel::empty(),
    {
        let targets = GroupTargets { levels: Vec::new(), reported: None };
        assert(levels_view(targets.levels@) =~= Seq::<LevelModel>::empty());
        targets
    }
}

impl GroupTargetLevel {
    fn begin_frame(&mut self)
        ensures
            final(self)@ == old(self)@.begun(),
    {
        let floor = self.budget.floor();
        if floor.width < self.allocated.width || floor.height < self.allocated.height {
            self.has_texture = false;
            self.allocated = Extent::none();
        }
        self.floor = floor;
        self.needed = Extent::none();
    }

    fn end_frame(&mut self)
        requires
            old(self)@.budget.frames <= GROUP_TEXTURE_SHRINK_FRAMES,
        ensures
            final(self)@ == old(self)@.ended(),
    {
        self.budget.observe(self.allocated, self.needed);
    }
}

impl GroupTargets {
    /// Start a frame: give back what a long enough run of frames has not
    /// needed.
    pub fn begin_frame(&mut self)
        ensures
            final(self)@ == old(self)@.begun(),
    {
        self.reported = None;
        let mut index: usize = 0;
        while index < self.levels.len()
            invariant
                index <= self.levels@.len(),
                self.levels@.len() == old(self).levels@.len(),
                self.reported is None,
                forall|i: int|
                    0 <= i < self.levels@.len() ==> (#[trigger] self.levels@[i])@ == if i < index {
                        old(self).levels@[i]@.begun()
                    } else {
                        old(self).levels@[i]@
                    },
            decreases self.levels@.len() - index,
        {
            self.levels[index].begin_frame();
            index += 1;
        }
        assert(self@.levels =~= old(self)@.begun().levels);
    }

    /// End a frame: take note of what it allocated and what it needed.
    pub fn end_frame(&mut self)
        requires
            old(self)@.is_counting(),
        ensures
            final(self)@ == old(self)@.ended(),
    {
        let mut index: usize = 0;
        while index < self.levels.len()
            invariant
                index <= self.levels@.len(),
                self.levels@.len() == old(self).levels@.len(),
                self.reported == old(self).reported,
                old(self)@.is_counting(),
                forall|i: int|
                    0 <= i < self.levels@.len() ==> (#[trigger] self.levels@[i])@ == if i < index {
                        old(self).levels@[i]@.ended()
                    } else {
                        old(self).levels@[i]@
                    },
            decreases self.levels@.len() - index,
        {
            assert(old(self)@.levels[index as int].budget.frames < GROUP_TEXTURE_SHRINK_FRAMES);
            assert(self.levels@[index as int]@ == old(self).levels@[index as int]@);
            self.levels[index].end_frame();
            index += 1;
        }
        assert(self@.levels =~= old(self)@.ended().levels);
    }

    /// Say something, once in a frame.
    pub fn report(&mut self, notice: Notice)
        ensures
            final(self)@ == old(self)@.having_said(notice),
    {
        if self.reported.is_none() {
            self.reported = Some(notice);
        }
    }

    fn deepen(&mut self, depth: usize)
        requires
            depth < usize::MAX,
        ensures
            final(self)@ == old(self)@.deepened(depth as nat),
    {
        let ghost before = self@.levels;
        assert(before + Seq::new(0nat, |i: int| LevelModel::fresh()) =~= before);
        while self.levels.len() <= depth
            invariant
                depth < usize::MAX,
                before == old(self)@.levels,
                before.len() <= self.levels@.len(),
                self.levels@.len() <= depth + 1 || self.levels@.len() == before.len(),
                self.reported == old(self).reported,
                self@.levels == before + Seq::new(
                    (self.levels@.len() - before.len()) as nat,
                    |i: int| LevelModel::fresh(),
                ),
            decreases depth + 1 - self.levels@.len(),
        {
            let ghost levels = self@.levels;
            self.levels.push(GroupTargetLevel::default());
            assert(self@.levels =~= levels.push(LevelModel::fresh()));
            assert(self@.levels =~= before + Seq::new(
                (self.levels@.len() - before.len()) as nat,
                |i: int| LevelModel::fresh(),
            ));
        }
        assert(self@.levels =~= old(self)@.deepened(depth as nat).levels);
    }

    fn bytes_elsewhere(&self, depth: usize) -> (r: u64)
        requires
            depth < self@.levels.len(),
            self@.held() <= u64::MAX,
        ensures
            r == held_but(self@.levels, depth as int, self@.levels.len()),
    {
        let mut total: u64 = 0;
        let mut index: usize = 0;
        proof {
            lemma_held_splits(self@.levels, depth as int, self@.levels.len());
            lemma_cost_is_positive(self@.levels[depth as int].allocated);
        }
        while index < self.levels.len()
            invariant
                index <= self.levels@.len(),
                total == held_but(self@.levels, depth as int, index as nat),
                held_but(self@.levels, depth as int, self@.levels.len()) <= u64::MAX,
            decreases self.levels@.len() - index,
        {
            proof {
                lemma_held_grows(
                    self@.levels,
                    depth as int,
                    (index + 1) as nat,
                    self@.levels.len(),
                );
                assert(self@.levels[index as int] == self.levels@[index as int]@);
            }
            if index != depth {
                total = total + self.levels[index].allocated.bytes();
            }
            index += 1;
        }
        total
    }

    /// A target at least as large as `rect` for a group at `depth`: how large
    /// it is, or `None` where it would take the targets past `budget` bytes.
    pub fn acquire(&mut self, depth: usize, rect: DeviceRect, budget: u64, filters: bool) -> (r:
        Option<Extent>)
        requires
            depth < usize::MAX,
            old(self)@.wf(budget as int),
            rect.width <= i32::MAX - 255,
            rect.height <= i32::MAX - 255,
        ensures
            (final(self)@, r) == old(self)@.acquired(depth as nat, rect, budget, filters),
            final(self)@.wf(budget as int),
            old(self)@.is_counting() ==> final(self)@.is_counting(),
    {
        reveal(TargetsModel::acquired);
        proof {
            targets_keep_to_their_budget(self@, depth as nat, rect, budget, filters);
            lemma_deepened(self@, depth as nat, budget as int);
        }
        let ghost all = self@.deepened(depth as nat);
        self.deepen(depth);
        assert(self@.levels[depth as int] == self.levels@[depth as int]@);
        let required = quantized_group_extent(rect.extent());
        let wanted = self.levels[depth].floor.max(required).max(self.levels[depth].allocated);
        let elsewhere = self.bytes_elsewhere(depth);
        let needed = self.levels[depth].needed.max(required);
        let level = &mut self.levels[depth];
        level.needed = needed;
        let anew = level.allocated != wanted || !level.has_texture;
        let mut granted = Some(wanted);
        let cost = wanted.bytes();
        if anew {
            proof {
                lemma_held_splits(all.levels, depth as int, all.levels.len());
                lemma_cost_is_positive(all.levels[depth as int].allocated);
            }
            if cost > budget - elsewhere {
                granted = None;
            } else {
                level.has_texture = true;
                level.allocated = wanted;
            }
        }
        if granted.is_none() {
            self.report(Notice::OverBudget { wanted, budget, filters });
        }
        assert(self@.levels =~= old(self)@.acquired(depth as nat, rect, budget, filters).0.levels);
        granted
    }
}

} // verus!
