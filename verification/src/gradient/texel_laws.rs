//! What holds of a gradient's texels.

use crate::color::{unit_clamp, LinearColorStop};
use crate::fixed::{is_nearest, lemma_rounds, max, nearest, ONE};
use crate::geometry::{Pixels, Point, Rect, Size};
use crate::gradient::bake::{
    baked, byte_of, bytes_of, is_root, parameter_at, radius_at,
};
use crate::gradient::laws::{is_held, lemma_has_root};
use crate::gradient::plan::{
    distance, gradient_plan, half_extent_of, rings_out, rings_reach_the_path, rings_to, texels_of,
    BrushMapping, FieldKey, Gradient, GradientKind, GradientPlan, MAX_RINGS, TURN,
};
use crate::gradient::stops::{folded, mix_stops, position_of, sampled, Channels, MixStop};
use crate::scene::path::BrushExtend;
use crate::scene::transform::FINE;
use vstd::prelude::*;

verus! {

/// Whether a byte is what a channel comes to: none of it is zero, all of it 255,
/// and what lies between the nearest in proportion; what lies outside counts as
/// none or all.
pub open spec fn is_byte_of(byte: u8, channel: i64) -> bool {
    &&& channel <= 0 ==> byte == 0
    &&& channel >= ONE ==> byte == 255
    &&& 0 <= channel <= ONE ==> is_nearest(byte as int, channel * 255, ONE as int)
}

proof fn lemma_byte(channel: i64)
    ensures
        0 <= byte_of(channel as int) <= 255,
        is_byte_of(byte_of(channel as int) as u8, channel),
{
    let held = unit_clamp(channel as int);
    assert(nearest(held * 255, ONE as int) == (2 * (held * 255) + 65536) / 131072);
}

/// A texture's bytes are four to a colour, in the colours' order: blue, green,
/// red and alpha.
pub proof fn texels_are_blue_green_red_alpha(colors: Seq<Channels>, n: nat, i: int)
    requires
        n <= colors.len(),
        0 <= i < n,
    ensures
        ({
            let bytes = bytes_of(colors, n);
            &&& bytes.len() == 4 * n
            &&& is_byte_of(bytes[4 * i], colors[i].z)
            &&& is_byte_of(bytes[4 * i + 1], colors[i].y)
            &&& is_byte_of(bytes[4 * i + 2], colors[i].x)
            &&& is_byte_of(bytes[4 * i + 3], colors[i].a)
        }),
    decreases n,
{
    lemma_bytes_len(colors, (n - 1) as nat);
    if i == n - 1 {
        lemma_byte(colors[i].z);
        lemma_byte(colors[i].y);
        lemma_byte(colors[i].x);
        lemma_byte(colors[i].a);
    } else {
        texels_are_blue_green_red_alpha(colors, (n - 1) as nat, i);
        let before = bytes_of(colors, (n - 1) as nat);
        let bytes = bytes_of(colors, n);
        assert forall|k: int| 0 <= k < before.len() implies bytes[k] == before[k] by {}
    }
}

proof fn lemma_bytes_len(colors: Seq<Channels>, n: nat)
    ensures
        bytes_of(colors, n).len() == 4 * n,
    decreases n,
{
    if n > 0 {
        lemma_bytes_len(colors, (n - 1) as nat);
    }
}

/// A texture is baked row by row, from the top and each from the left: the texel
/// in column `x` of row `y` has the colour that the stops come to there.
pub proof fn texels_are_baked_row_by_row(
    plan: GradientPlan,
    extend: BrushExtend,
    stops: Seq<MixStop>,
    turned: Seq<i64>,
    x: int,
    y: int,
)
    requires
        0 <= x < plan.key.width,
        0 <= y < plan.key.height,
    ensures
        ({
            let width = plan.key.width as int;
            let texels = baked(plan, extend, stops, turned);
            let angle = if y * width + x < turned.len() {
                turned[y * width + x] as int
            } else {
                0
            };
            &&& texels.len() == width * plan.key.height
            &&& 0 <= y * width + x < texels.len()
            &&& texels[y * width + x] == sampled(
                stops,
                parameter_at(plan.key.field, extend, x, y, width, angle),
            )
        }),
{
    let width = plan.key.width as int;
    let height = plan.key.height as int;
    let i = y * width + x;
    assert(0 <= i < width * height) by (nonlinear_arith)
        requires
            0 <= x < width,
            0 <= y < height,
            i == y * width + x,
    ;
    assert(i % width == x && i / width == y) by (nonlinear_arith)
        requires
            0 <= x < width,
            0 <= y,
            i == y * width + x,
    ;
}

/// A stop stands where it says, within the gradient, unless one before it stands
/// further along, and keeps its colour.
pub proof fn stops_stand_where_they_say(
    stops: Seq<LinearColorStop>,
    colors: Seq<Channels>,
    i: int,
)
    requires
        0 <= i < stops.len(),
    ensures
        ({
            let mixed = mix_stops(stops, colors);
            let own = stops[i].percentage;
            &&& mixed.len() == stops.len()
            &&& mixed[i].color == colors[i]
            &&& 0 <= mixed[i].position <= ONE
            &&& 0 <= own <= ONE ==> mixed[i].position >= own
            &&& own > ONE ==> mixed[i].position == ONE
            &&& (forall|k: int| 0 <= k < i ==> (#[trigger] stops[k]).percentage <= own) ==> {
                &&& 0 <= own <= ONE ==> mixed[i].position == own
                &&& own < 0 ==> mixed[i].position == 0
            }
            &&& i > 0 ==> mixed[i].position >= mixed[i - 1].position
            &&& i > 0 && own <= mixed[i - 1].position ==> mixed[i].position == mixed[i
                - 1].position
        }),
{
    lemma_position(stops, i as nat);
    lemma_position(stops, (i + 1) as nat);
    if forall|k: int| 0 <= k < i ==> (#[trigger] stops[k]).percentage <= stops[i].percentage {
        lemma_position_at_most(stops, i as nat, stops[i].percentage as int);
    }
}

proof fn lemma_position(stops: Seq<LinearColorStop>, n: nat)
    ensures
        0 <= position_of(stops, n) <= ONE,
    decreases n,
{
    if n > 0 {
        lemma_position(stops, (n - 1) as nat);
    }
}

proof fn lemma_position_at_most(stops: Seq<LinearColorStop>, n: nat, limit: int)
    requires
        n <= stops.len(),
        forall|k: int| 0 <= k < n ==> (#[trigger] stops[k]).percentage <= limit,
    ensures
        position_of(stops, n) <= unit_clamp(limit),
    decreases n,
{
    if n > 0 {
        lemma_position_at_most(stops, (n - 1) as nat, limit);
        assert(stops[n - 1].percentage <= limit);
    }
}

/// A square of texels is the least of the three sizes that holds as many across
/// as are wanted, or else the largest.
pub proof fn squares_are_no_larger_than_they_have_to_be(wanted: int)
    ensures
        texels_of(wanted) == 64 || texels_of(wanted) == 128 || texels_of(wanted) == 256,
        wanted <= 256 ==> wanted <= texels_of(wanted),
        texels_of(wanted) > 64 ==> texels_of(wanted) < 2 * wanted,
{
}

/// A radial gradient that goes on past its last stop goes on by the distance: a
/// texel's distance from the middle, in radii rounded down, is brought back the
/// way the gradient is extended.
pub proof fn radial_texels_go_on_by_distance(
    half_extent: u32,
    extend: BrushExtend,
    x: int,
    y: int,
    texels: int,
)
    requires
        0 <= x < texels,
        0 <= y < texels,
    ensures
        exists|r: nat|
            #[trigger] is_distance(r, half_extent, x, y, texels) && parameter_at(
                FieldKey::Radial { half_extent },
                extend,
                x,
                y,
                texels,
                0,
            ) == folded(r as int, extend),
{
    let across = 2 * x + 1 - texels;
    let down = 2 * y + 1 - texels;
    let reach = half_extent * ONE;
    let apart = (across * across + down * down) * (reach * reach);
    let whole = texels * texels;
    assert(whole > 0) by (nonlinear_arith)
        requires
            whole == texels * texels,
            texels > 0,
    ;
    assert(apart >= 0) by (nonlinear_arith)
        requires
            apart == (across * across + down * down) * (reach * reach),
    ;
    let n = apart / whole;
    assert(n >= 0 && n * whole <= apart < n * whole + whole) by (nonlinear_arith)
        requires
            whole > 0,
            apart >= 0,
            n == apart / whole,
    ;
    let r = radius_at(x, y, texels, half_extent as int);
    lemma_has_root(n);
    assert(is_root(r, n));
    assert(r * r * whole <= apart) by (nonlinear_arith)
        requires
            r * r <= n,
            n * whole <= apart,
            whole > 0,
    ;
    assert(apart < (r + 1) * (r + 1) * whole) by (nonlinear_arith)
        requires
            n + 1 <= (r + 1) * (r + 1),
            apart < n * whole + whole,
            whole > 0,
    ;
    assert(is_distance(r, half_extent, x, y, texels));
}

/// Whether a texel's middle is `r` from the middle of its square, rounded down,
/// where the square reaches `half_extent` radii to each side.
pub open spec fn is_distance(r: nat, half_extent: u32, x: int, y: int, texels: int) -> bool {
    let across = 2 * x + 1 - texels;
    let down = 2 * y + 1 - texels;
    let reach = half_extent * ONE;
    let apart = (across * across + down * down) * (reach * reach);
    let whole = texels * texels;
    r * r * whole <= apart && apart < (r + 1) * (r + 1) * whole
}

proof fn lemma_is_nearest(numerator: int, denominator: int)
    requires
        0 < denominator,
    ensures
        is_nearest(nearest(numerator, denominator), numerator, denominator),
{
    let r = nearest(numerator, denominator);
    let n = 2 * numerator + denominator;
    let d = 2 * denominator;
    assert(d * r <= n < d * r + d) by (nonlinear_arith)
        requires
            0 < d,
            r == n / d,
    ;
    assert(d * r == 2 * (r * denominator)) by (nonlinear_arith)
        requires
            d == 2 * denominator,
    ;
}

/// The transformation to the texture is the mapping's own, over the scale: each
/// of its numbers is the nearest to what takes a device pixel there, where that
/// can be held.
pub proof fn screens_map_as_their_mappings_do(mapping: BrushMapping, scale: int)
    requires
        mapping.wf(),
        0 < scale,
    ensures
        ({
            let matrix = mapping.matrix(scale);
            let unit: int = 0x1_0000_0000_0000_0000;
            match mapping {
                BrushMapping::Axis { start, along, length_squared } => {
                    let whole = length_squared * scale;
                    let before = start.x.0 * along.x.0 + start.y.0 * along.y.0;
                    &&& whole * i64::MIN <= along.x.0 * unit <= whole * i64::MAX ==> is_nearest(
                        matrix.a,
                        along.x.0 * unit,
                        whole,
                    )
                    &&& whole * i64::MIN <= along.y.0 * unit <= whole * i64::MAX ==> is_nearest(
                        matrix.b,
                        along.y.0 * unit,
                        whole,
                    )
                    &&& length_squared * i64::MIN <= -before * FINE <= length_squared * i64::MAX
                        ==> is_nearest(matrix.x, -before * FINE, length_squared as int)
                    &&& matrix.c == 0 && matrix.d == 0 && 2 * matrix.y == FINE
                },
                BrushMapping::Square { center, half } => {
                    let across = 2 * half.width.0 * scale;
                    let down = 2 * half.height.0 * scale;
                    &&& unit <= across * i64::MAX ==> is_nearest(matrix.a, unit, across)
                    &&& unit <= down * i64::MAX ==> is_nearest(matrix.d, unit, down)
                    &&& matrix.b == 0 && matrix.c == 0
                    &&& is_held(FINE / 2 + nearest(-center.x.0 * FINE, 2 * half.width.0))
                        ==> is_nearest(
                        matrix.x - FINE / 2,
                        -center.x.0 * FINE,
                        2 * half.width.0,
                    )
                    &&& is_held(FINE / 2 + nearest(-center.y.0 * FINE, 2 * half.height.0))
                        ==> is_nearest(
                        matrix.y - FINE / 2,
                        -center.y.0 * FINE,
                        2 * half.height.0,
                    )
                }
            }
        }),
{
    let matrix = mapping.matrix(scale);
    let unit: int = 0x1_0000_0000_0000_0000;
    match mapping {
        BrushMapping::Axis { start, along, length_squared } => {
            let whole = length_squared * scale;
            let before = start.x.0 * along.x.0 + start.y.0 * along.y.0;
            assert(whole > 0) by (nonlinear_arith)
                requires
                    whole == length_squared * scale,
                    length_squared > 0,
                    scale > 0,
            ;
            if whole * i64::MIN <= along.x.0 * unit <= whole * i64::MAX {
                lemma_rounds(along.x.0 * unit, whole);
            }
            if whole * i64::MIN <= along.y.0 * unit <= whole * i64::MAX {
                lemma_rounds(along.y.0 * unit, whole);
            }
            if length_squared * i64::MIN <= -before * FINE <= length_squared * i64::MAX {
                lemma_rounds(-before * FINE, length_squared as int);
            }
        },
        BrushMapping::Square { center, half } => {
            let across = 2 * half.width.0 * scale;
            let down = 2 * half.height.0 * scale;
            assert(across > 0 && down > 0) by (nonlinear_arith)
                requires
                    across == 2 * half.width.0 * scale,
                    down == 2 * half.height.0 * scale,
                    half.width.0 > 0,
                    half.height.0 > 0,
                    scale > 0,
            ;
            assert(across * i64::MIN <= unit && down * i64::MIN <= unit) by (nonlinear_arith)
                requires
                    across > 0,
                    down > 0,
                    unit > 0,
            ;
            if unit <= across * i64::MAX {
                lemma_rounds(unit, across);
            }
            if unit <= down * i64::MAX {
                lemma_rounds(unit, down);
            }
            lemma_is_nearest(-center.x.0 * FINE, 2 * half.width.0);
            lemma_is_nearest(-center.y.0 * FINE, 2 * half.height.0);
        },
    }
}

/// How far a number is from another.
pub open spec fn apart(a: int, b: int) -> int {
    if a < b {
        b - a
    } else {
        a - b
    }
}

/// A radial gradient that goes on past its last stop is baked as far out as the
/// path it fills, or as far as gradients are: so many radii that every side of
/// the path is within them.
pub proof fn radial_textures_reach_the_path(
    gradient: Gradient,
    center: Point<Pixels>,
    radii: Size<Pixels>,
    bounds: Rect,
    scale: int,
)
    requires
        gradient.kind == (GradientKind::Radial { center, radii }),
        gradient.extend != BrushExtend::Pad,
        gradient_plan(gradient, bounds, scale) is Some,
    ensures
        ({
            let h = (gradient_plan(gradient, bounds, scale)->0).key.field->half_extent as int;
            let (rx, ry) = (radii.width.0 as int, radii.height.0 as int);
            h == 32 || {
                &&& apart(bounds.x, center.x.0 as int) <= h * rx
                &&& apart(bounds.right(), center.x.0 as int) <= h * rx
                &&& apart(bounds.y, center.y.0 as int) <= h * ry
                &&& apart(bounds.bottom(), center.y.0 as int) <= h * ry
            }
        }),
{
    let plan = gradient_plan(gradient, bounds, scale)->0;
    let h = plan.key.field->half_extent as int;
    let (x, y) = (center.x.0 as int, center.y.0 as int);
    let (rx, ry) = (radii.width.0 as int, radii.height.0 as int);
    if h < MAX_RINGS {
        assert(rings_out(bounds, x, y, rx, ry) <= h);
        rings_reach_the_path(bounds, x, y, rx, ry);
        assert(half_extent_of(BrushExtend::Repeat, rings_out(bounds, x, y, rx, ry)) == h);
    }
}

/// A field has texels enough, up to its limit: as many across as the path it
/// fills has device pixels, four for every run through the stops that it shows,
/// and no more than twice what either asks for, or the least there is.
pub proof fn fields_have_texels_enough(gradient: Gradient, bounds: Rect, scale: int, runs: int)
    requires
        gradient_plan(gradient, bounds, scale) is Some,
        !(gradient.kind is Linear),
        0 <= runs,
        gradient.kind matches GradientKind::Radial { .. } ==> runs == 2 * (gradient_plan(
            gradient,
            bounds,
            scale,
        )->0).key.field->half_extent,
        gradient.kind matches GradientKind::Sweep { sweep_angle, .. } ==> if gradient.extend
            == BrushExtend::Pad {
            runs == 1
        } else {
            (runs - 1) * apart(sweep_angle.0 as int, 0) < TURN && runs <= 256
        },
    ensures
        ({
            let texels = (gradient_plan(gradient, bounds, scale)->0).key.width;
            let pixels = max(bounds.width, bounds.height) * scale / 0x1_0000_0000;
            &&& texels == 64 || texels == 128 || texels == 256
            &&& texels == 256 || pixels <= texels
            &&& texels == 256 || 4 * runs <= texels
        }),
{
    assert(ONE * ONE == 0x1_0000_0000) by (nonlinear_arith)
        requires
            ONE == 65536,
    ;
    if let GradientKind::Sweep { sweep_angle, .. } = gradient.kind {
        let sweep = distance(sweep_angle.0 as int, 0);
        assert(sweep == apart(sweep_angle.0 as int, 0));
        if gradient.extend != BrushExtend::Pad {
            let turns = rings_to(TURN as int, sweep);
            lemma_runs(TURN as int, sweep, runs);
            assert(runs <= turns);
        }
    }
}

proof fn lemma_runs(turn: int, sweep: int, runs: int)
    requires
        0 < sweep,
        0 < turn,
        (runs - 1) * sweep < turn,
    ensures
        runs <= rings_to(turn, sweep),
{
    let q = rings_to(turn, sweep);
    assert(turn <= q * sweep) by (nonlinear_arith)
        requires
            0 < sweep,
            0 < turn,
            q == (turn + sweep - 1) / sweep,
    ;
    assert(runs - 1 < q) by (nonlinear_arith)
        requires
            0 < sweep,
            (runs - 1) * sweep < q * sweep,
    ;
}

} // verus!
