//! The texels of a baked gradient.

use crate::color::{unit_clamp, unit_clamped, ColorSpace, LinearColorStop};
use crate::fixed::{floor_div, nearest, saturate, saturated, ONE};
use crate::geometry::Rect;
use crate::gradient::plan::{
    a_shared_texture_is_the_same, gradient_plan, FieldKey, Gradient, GradientPlan, KeyModel,
    MAX_FIELD_TEXELS, MAX_RINGS, RAMP_TEXELS,
};
use crate::gradient::stops::{
    fold, folded, mix_stops, positions_fit, sample, sampled, stops_wf, Channels, MixStop,
};
use crate::scene::path::BrushExtend;
use vstd::prelude::*;

verus! {

/// The whole number whose square comes nearest to `n` from below.
pub open spec fn root_of(n: int) -> nat {
    choose|r: nat| is_root(r, n)
}

pub open spec fn is_root(r: nat, n: int) -> bool {
    r * r <= n && n < (r + 1) * (r + 1)
}

proof fn lemma_root_is(r: nat, n: int)
    requires
        is_root(r, n),
    ensures
        root_of(n) == r,
{
    let other = root_of(n);
    assert(is_root(other, n));
    assert(other == r) by (nonlinear_arith)
        requires
            r * r <= n,
            n < (r + 1) * (r + 1),
            other * other <= n,
            n < (other + 1) * (other + 1),
            other >= 0,
            r >= 0,
    ;
}

fn square_root(n: u128) -> (r: u64)
    requires
        n < 0x1_0000_0000_0000_0000_0000,
    ensures
        r == root_of(n as int),
        r < 0x100_0000_0000,
{
    let mut low: u64 = 0;
    let mut high: u64 = 0x100_0000_0000;
    assert(0x100_0000_0000u64 * 0x100_0000_0000u64 == 0x1_0000_0000_0000_0000_0000)
        by (nonlinear_arith);
    while high - low > 1
        invariant
            low < high <= 0x100_0000_0000,
            low * low <= n < high * high,
        decreases high - low,
    {
        let middle: u64 = low + (high - low) / 2;
        assert(middle * middle <= 0x1_0000_0000_0000_0000_0000) by (nonlinear_arith)
            requires
                0 <= middle <= 0x100_0000_0000,
        ;
        if middle as u128 * middle as u128 <= n {
            low = middle;
        } else {
            high = middle;
        }
    }
    proof {
        lemma_root_is(low as nat, n as int);
    }
    low
}

/// How far the middle of a texel is from the middle of a square, in halves of a
/// texel.
pub open spec fn off_middle(at: int, texels: int) -> int {
    2 * at + 1 - texels
}

/// The distance of a texel from the middle of a square that reaches
/// `half_extent` from its middle to each side.
pub open spec fn radius_at(x: int, y: int, texels: int, half_extent: int) -> nat {
    let across = off_middle(x, texels);
    let down = off_middle(y, texels);
    root_of(
        (across * across + down * down) * (half_extent * ONE * (half_extent * ONE)) / (texels
            * texels),
    )
}

/// How much of a sweep lies before an angle.
pub open spec fn part_of_sweep(turned: int, sweep: int) -> int {
    if sweep > 0 {
        saturate(nearest(turned * ONE, sweep))
    } else {
        saturate(nearest(-turned * ONE, -sweep))
    }
}

/// Where along the stops the texel at `(x, y)` stands. `turned` is the angle of
/// the texel's middle past where a sweep begins.
pub open spec fn parameter_at(
    field: FieldKey,
    extend: BrushExtend,
    x: int,
    y: int,
    texels: int,
    turned: int,
) -> int {
    match field {
        FieldKey::Ramp => (2 * x + 1) * ONE / (2 * texels),
        FieldKey::Radial { half_extent } => folded(
            radius_at(x, y, texels, half_extent as int) as int,
            extend,
        ),
        FieldKey::Sweep { sweep_angle, .. } => folded(
            part_of_sweep(turned, sweep_angle as int),
            extend,
        ),
    }
}

/// Whether a field is one that is baked.
pub open spec fn field_holds(field: FieldKey) -> bool {
    match field {
        FieldKey::Ramp => true,
        FieldKey::Radial { half_extent } => half_extent <= MAX_RINGS,
        FieldKey::Sweep { sweep_angle, .. } => sweep_angle != 0,
    }
}

fn squared(v: i64) -> (r: u128)
    requires
        -512 <= v <= 512,
    ensures
        r == v * v,
        r <= 262144,
{
    let size: u64 = if v < 0 {
        (-v) as u64
    } else {
        v as u64
    };
    assert(size * size == v * v) by (nonlinear_arith)
        requires
            size == v || size == -v,
    ;
    assert(size * size <= 512 * 512) by (nonlinear_arith)
        requires
            0 <= size <= 512,
    ;
    size as u128 * size as u128
}

fn radius(x: u32, y: u32, texels: u32, half_extent: u32) -> (r: i64)
    requires
        x < texels,
        y < texels,
        texels <= MAX_FIELD_TEXELS,
        half_extent <= MAX_RINGS,
    ensures
        r == radius_at(x as int, y as int, texels as int, half_extent as int),
{
    let across: i64 = 2 * x as i64 + 1 - texels as i64;
    let down: i64 = 2 * y as i64 + 1 - texels as i64;
    let reach: u64 = half_extent as u64 * 65536;
    assert(reach * reach <= 0x400_0000_0000) by (nonlinear_arith)
        requires
            0 <= reach <= 0x20_0000,
    ;
    let spread: u128 = reach as u128 * reach as u128;
    let apart: u128 = squared(across) + squared(down);
    assert(apart * spread <= 524288 * 0x400_0000_0000) by (nonlinear_arith)
        requires
            0 <= apart <= 524288,
            0 <= spread <= 0x400_0000_0000,
    ;
    assert(0 < texels * texels <= 65536) by (nonlinear_arith)
        requires
            0 < texels <= 256,
    ;
    let square: u128 = texels as u128 * texels as u128;
    assert(half_extent * ONE == reach);
    let n: u128 = apart * spread / square;
    assert(0 <= n <= apart * spread) by (nonlinear_arith)
        requires
            n == apart * spread / (square as int),
            square >= 1,
            apart * spread >= 0,
    ;
    square_root(n) as i64
}

fn swept(turned: i64, sweep: i64) -> (r: i64)
    requires
        sweep != 0,
    ensures
        r == part_of_sweep(turned as int, sweep as int),
{
    let (over, under): (i128, i128) = if sweep > 0 {
        (turned as i128 * 65536, sweep as i128)
    } else {
        (-(turned as i128) * 65536, -(sweep as i128))
    };
    saturated(floor_div(2 * over + under, 2 * under))
}

/// Where along the stops a texel stands.
///
/// A ramp is not folded: the brush wraps along its texels. A field has to be,
/// since no texel wraps around a circle.
pub fn parameter(
    field: FieldKey,
    extend: BrushExtend,
    x: u32,
    y: u32,
    texels: u32,
    turned: i64,
) -> (r: i64)
    requires
        x < texels,
        y < texels,
        texels <= MAX_FIELD_TEXELS,
        field_holds(field),
    ensures
        r == parameter_at(field, extend, x as int, y as int, texels as int, turned as int),
{
    match field {
        FieldKey::Ramp => {
            proof {
                let n = (2 * x + 1) * ONE;
                assert((2 * x + 1) * ONE == (2 * x + 1) * 65536);
                assert(0 <= n / (2 * texels as int) <= n) by (nonlinear_arith)
                    requires
                        0 <= n,
                        0 < texels,
                ;
            }
            (2 * x as i64 + 1) * 65536 / (2 * texels as i64)
        },
        FieldKey::Radial { half_extent } => fold(radius(x, y, texels, half_extent), extend),
        FieldKey::Sweep { sweep_angle, .. } => fold(swept(turned, sweep_angle), extend),
    }
}

/// The angle given for a texel, where angles are given.
pub open spec fn turned_at(turned: Seq<i64>, i: int) -> int {
    if i < turned.len() {
        turned[i] as int
    } else {
        0
    }
}

/// The colours of a baked texture, row by row, in the space they are mixed in.
pub open spec fn baked(
    plan: GradientPlan,
    extend: BrushExtend,
    stops: Seq<MixStop>,
    turned: Seq<i64>,
) -> Seq<Channels> {
    let width = plan.key.width as int;
    Seq::new(
        (plan.key.width * plan.key.height) as nat,
        |i: int|
            sampled(
                stops,
                parameter_at(
                    plan.key.field,
                    extend,
                    i % width,
                    i / width,
                    width,
                    turned_at(turned, i),
                ),
            ),
    )
}

impl GradientPlan {
    /// Whether the texture is one that is baked.
    pub open spec fn wf(self) -> bool {
        &&& 1 <= self.key.width <= MAX_FIELD_TEXELS
        &&& 1 <= self.key.height <= self.key.width
        &&& field_holds(self.key.field)
    }

    /// The size of the texture, in texels.
    pub fn size(&self) -> (r: (u32, u32))
        ensures
            r == (self.key.width, self.key.height),
    {
        (self.key.width, self.key.height)
    }

    /// The colours of the texture, row by row, in the space they are mixed in.
    /// `turned` is, for a sweep, the angle of each texel's middle past where
    /// the sweep begins.
    pub fn bake(&self, extend: BrushExtend, stops: &Vec<MixStop>, turned: &Vec<i64>) -> (r: Vec<
        Channels,
    >)
        requires
            self.wf(),
            stops_wf(stops@),
            positions_fit(stops@),
        ensures
            r@ == baked(*self, extend, stops@, turned@),
    {
        let width: u32 = self.key.width;
        let height: u32 = self.key.height;
        let mut colors: Vec<Channels> = Vec::new();
        let mut y: u32 = 0;
        let ghost all = baked(*self, extend, stops@, turned@);
        assert(all.take(0) =~= Seq::<Channels>::empty());
        assert(0 * width == 0);
        while y < height
            invariant
                self.wf(),
                stops_wf(stops@),
                positions_fit(stops@),
                width == self.key.width,
                height == self.key.height,
                y <= height,
                all == baked(*self, extend, stops@, turned@),
                colors@.len() == y * width,
                colors@ == all.take(y * width),
            decreases height - y,
        {
            let mut x: u32 = 0;
            while x < width
                invariant
                    self.wf(),
                    stops_wf(stops@),
                    positions_fit(stops@),
                    width == self.key.width,
                    height == self.key.height,
                    y < height,
                    x <= width,
                    all == baked(*self, extend, stops@, turned@),
                    colors@.len() == y * width + x,
                    colors@ == all.take(y * width + x),
                decreases width - x,
            {
                let ghost i = y * width + x;
                proof {
                    lemma_place(x as int, y as int, width as int, height as int);
                }
                let index: usize = colors.len();
                let angle: i64 = if index < turned.len() {
                    turned[index]
                } else {
                    0
                };
                let at: i64 = parameter(self.key.field, extend, x, y, width, angle);
                colors.push(sample(stops, at));
                assert(all[i] == colors@[i]);
                x += 1;
                assert(colors@ =~= all.take(i + 1));
            }
            assert(y * width + width == (y + 1) * width) by (nonlinear_arith);
            y += 1;
        }
        assert(all.len() == height * width) by (nonlinear_arith)
            requires
                all.len() == width * height,
        ;
        assert(all.take(height * width) =~= all);
        colors
    }
}

proof fn lemma_place(x: int, y: int, width: int, height: int)
    requires
        0 <= x < width,
        0 <= y < height,
    ensures
        (y * width + x) % width == x,
        (y * width + x) / width == y,
        0 <= y * width + x < width * height,
{
    assert((y * width + x) % width == x && (y * width + x) / width == y) by (nonlinear_arith)
        requires
            0 <= x < width,
            0 <= y,
    ;
    assert(0 <= y * width + x < width * height) by (nonlinear_arith)
        requires
            0 <= x < width,
            0 <= y < height,
    ;
}

/// A channel as a byte.
pub open spec fn byte_of(channel: int) -> int {
    nearest(unit_clamp(channel) * 255, ONE as int)
}

fn byte(channel: i64) -> (r: u8)
    ensures
        r == byte_of(channel as int),
{
    let held: i64 = unit_clamped(channel);
    assert(2 * ONE == 131072 && ONE == 65536);
    assert(0 <= (held * 255 * 2 + 65536) / 131072 <= 255);
    assert(nearest(held * 255, ONE as int) == (2 * (held * 255) + 65536) / 131072);
    ((held * 255 * 2 + 65536) / 131072) as u8
}

/// The bytes of some colours, blue first.
pub open spec fn bytes_of(colors: Seq<Channels>, n: nat) -> Seq<u8>
    decreases n,
{
    if n == 0 {
        Seq::empty()
    } else {
        let color = colors[n - 1];
        bytes_of(colors, (n - 1) as nat) + seq![
            byte_of(color.z as int) as u8,
            byte_of(color.y as int) as u8,
            byte_of(color.x as int) as u8,
            byte_of(color.a as int) as u8,
        ]
    }
}

/// The bytes that the sprite atlas holds of some colours, whose channels are
/// red, green and blue: blue first, and not premultiplied.
pub fn texel_bytes(colors: &Vec<Channels>) -> (r: Vec<u8>)
    ensures
        r@ == bytes_of(colors@, colors@.len()),
{
    let mut bytes: Vec<u8> = Vec::new();
    let mut index: usize = 0;
    while index < colors.len()
        invariant
            index <= colors@.len(),
            bytes@ == bytes_of(colors@, index as nat),
        decreases colors@.len() - index,
    {
        let ghost before = bytes@;
        let color = colors[index];
        bytes.push(byte(color.z));
        bytes.push(byte(color.y));
        bytes.push(byte(color.x));
        bytes.push(byte(color.a));
        index += 1;
        assert(bytes@ =~= bytes_of(colors@, index as nat));
    }
    bytes
}

/// Plans of one key bake the same texels of the same stops and angles, whatever
/// they fill.
pub proof fn equal_keys_bake_alike(
    p: GradientPlan,
    q: GradientPlan,
    extend: BrushExtend,
    stops: Seq<MixStop>,
    turned: Seq<i64>,
)
    requires
        p.key@ == q.key@,
    ensures
        baked(p, extend, stops, turned) == baked(q, extend, stops, turned),
{
    assert(p.key@.width == q.key@.width && p.key@.height == q.key@.height);
    assert(baked(p, extend, stops, turned) =~= baked(q, extend, stops, turned));
}

/// One texture serves every gradient whose plan has its key, whatever path each
/// of them fills and at whatever scale: however colours are brought into the
/// space that they are mixed in, and however a texel's angle is found, each
/// bakes the same texels, to the byte.
pub proof fn gradients_of_one_key_bake_alike(
    a: Gradient,
    b: Gradient,
    p: GradientPlan,
    q: GradientPlan,
    bounds: Rect,
    other: Rect,
    scale: int,
    other_scale: int,
    mixing: spec_fn(Seq<LinearColorStop>, ColorSpace) -> Seq<Channels>,
    turning: spec_fn(KeyModel) -> Seq<i64>,
)
    requires
        gradient_plan(a, bounds, scale) == Some(p@),
        gradient_plan(b, other, other_scale) == Some(q@),
        p.key@ == q.key@,
    ensures
        ({
            let one = baked(
                p,
                a.extend,
                mix_stops(a.stops@, mixing(a.stops@, a.color_space)),
                turning(p.key@),
            );
            let two = baked(
                q,
                b.extend,
                mix_stops(b.stops@, mixing(b.stops@, b.color_space)),
                turning(q.key@),
            );
            &&& one == two
            &&& bytes_of(one, one.len()) == bytes_of(two, two.len())
        }),
{
    a_shared_texture_is_the_same(a, b, bounds, other, scale, other_scale);
    equal_keys_bake_alike(
        p,
        q,
        a.extend,
        mix_stops(a.stops@, mixing(a.stops@, a.color_space)),
        turning(p.key@),
    );
}

/// A radial gradient is the same on both sides of its middle, above and below
/// it, and across its diagonal.
pub proof fn radial_fields_are_symmetric(
    extend: BrushExtend,
    half_extent: u32,
    x: int,
    y: int,
    texels: int,
)
    ensures
        ({
            let field = FieldKey::Radial { half_extent };
            let here = parameter_at(field, extend, x, y, texels, 0);
            &&& parameter_at(field, extend, texels - 1 - x, y, texels, 0) == here
            &&& parameter_at(field, extend, x, texels - 1 - y, texels, 0) == here
            &&& parameter_at(field, extend, y, x, texels, 0) == here
        }),
{
    let across = off_middle(x, texels);
    let down = off_middle(y, texels);
    assert(off_middle(texels - 1 - x, texels) == -across);
    assert(off_middle(texels - 1 - y, texels) == -down);
    assert((-across) * (-across) == across * across) by (nonlinear_arith);
    assert((-down) * (-down) == down * down) by (nonlinear_arith);
}

/// A texel of a ramp has the colour at the texel's own middle.
pub proof fn ramps_are_even(extend: BrushExtend, x: int)
    requires
        0 <= x < RAMP_TEXELS,
    ensures
        2 * parameter_at(FieldKey::Ramp, extend, x, 0, RAMP_TEXELS as int, 0) == x * ONE
            / (RAMP_TEXELS as int) + (x + 1) * ONE / (RAMP_TEXELS as int),
{
    assert(x * ONE == x * 65536);
    assert((x + 1) * ONE == (x + 1) * 65536);
    assert((2 * x + 1) * ONE == (2 * x + 1) * 65536);
    let texels = RAMP_TEXELS as int;
    assert(texels == 256);
    assert(((2 * x + 1) * 65536) / 512 == (2 * x + 1) * 128);
    assert((x * 65536) / 256 == x * 256);
    assert(((x + 1) * 65536) / 256 == (x + 1) * 256);
    assert(parameter_at(FieldKey::Ramp, extend, x, 0, texels, 0) == ((2 * x + 1) * 65536) / 512);
}

} // verus!
