//! The colours of a gradient, from stop to stop.

use crate::color::{unit_clamp, unit_clamped, LinearColorStop};
use crate::fixed::{floor_div, max, nearest, saturate, saturated, ONE};
use crate::scene::path::BrushExtend;
use vstd::prelude::*;

verus! {

/// How large a channel may be: many times what any colour holds.
pub const CHANNEL_LIMIT: i64 = 0x100_0000_0000;

/// A colour in the space it is mixed in: three channels and an alpha.
#[derive(Clone, Copy, Debug, PartialEq, Eq, Structural)]
pub struct Channels {
    pub x: i64,
    pub y: i64,
    pub z: i64,
    pub a: i64,
}

/// A colour, and where on the gradient it stands.
#[derive(Clone, Copy, Debug, PartialEq, Eq, Structural)]
pub struct MixStop {
    pub position: i64,
    pub color: Channels,
}

pub open spec fn is_mild(v: i64) -> bool {
    -CHANNEL_LIMIT <= v <= CHANNEL_LIMIT
}

impl Channels {
    /// Whether every channel is within its limits.
    pub open spec fn wf(self) -> bool {
        is_mild(self.x) && is_mild(self.y) && is_mild(self.z) && is_mild(self.a)
    }

    pub open spec fn nothing() -> Channels {
        Channels { x: 0, y: 0, z: 0, a: 0 }
    }
}

pub open spec fn stops_wf(stops: Seq<MixStop>) -> bool {
    forall|i: int| 0 <= i < stops.len() ==> (#[trigger] stops[i]).color.wf()
}

pub open spec fn colors_wf(colors: Seq<Channels>) -> bool {
    forall|i: int| 0 <= i < colors.len() ==> (#[trigger] colors[i]).wf()
}

/// The position of the last of the first `n` stops: its own, held to the
/// gradient's range, and raised to at least that of the stop before it.
pub open spec fn position_of(stops: Seq<LinearColorStop>, n: nat) -> int
    decreases n,
{
    if n == 0 {
        0
    } else {
        max(
            unit_clamp(stops[n - 1].percentage as int),
            position_of(stops, (n - 1) as nat),
        )
    }
}

/// The stops that a gradient is mixed from.
pub open spec fn mix_stops(stops: Seq<LinearColorStop>, colors: Seq<Channels>) -> Seq<MixStop> {
    Seq::new(
        stops.len(),
        |i: int| MixStop { position: position_of(stops, (i + 1) as nat) as i64, color: colors[i] },
    )
}

/// Positions ascend, and lie within the gradient's range.
pub proof fn positions_ascend(stops: Seq<LinearColorStop>, n: nat, m: nat)
    requires
        n <= m,
    ensures
        0 <= position_of(stops, n) <= position_of(stops, m) <= ONE,
    decreases m,
{
    if n < m {
        positions_ascend(stops, n, (m - 1) as nat);
    } else if n > 0 {
        positions_ascend(stops, (n - 1) as nat, (n - 1) as nat);
    }
}

/// The stops as they are mixed: read in the order given, with each position
/// raised to at least its predecessor's. `colors` are the stops' colours, in
/// the space they are mixed in.
pub fn normalized_stops(stops: &Vec<LinearColorStop>, colors: &Vec<Channels>) -> (r: Vec<MixStop>)
    requires
        stops@.len() == colors@.len(),
    ensures
        r@ == mix_stops(stops@, colors@),
        positions_fit(r@),
        colors_wf(colors@) ==> stops_wf(r@),
{
    proof {
        assert forall|i: int| 0 <= i < stops@.len() implies 0 <= (
        #[trigger] mix_stops(stops@, colors@)[i]).position <= ONE by {
            positions_ascend(stops@, (i + 1) as nat, (i + 1) as nat);
        }
    }
    let mut highest: i64 = 0;
    let mut mixed: Vec<MixStop> = Vec::new();
    let mut index: usize = 0;
    while index < stops.len()
        invariant
            index <= stops@.len(),
            stops@.len() == colors@.len(),
            highest == position_of(stops@, index as nat),
            mixed@ == mix_stops(stops@, colors@).take(index as int),
        decreases stops@.len() - index,
    {
        let position: i64 = unit_clamped(stops[index].percentage);
        if position > highest {
            highest = position;
        }
        mixed.push(MixStop { position: highest, color: colors[index] });
        index += 1;
        assert(mixed@ =~= mix_stops(stops@, colors@).take(index as int));
    }
    assert(mix_stops(stops@, colors@).take(index as int) =~= mix_stops(stops@, colors@));
    mixed
}

/// `low`, moved `part` of `whole` of the way to `high`.
pub open spec fn straight(low: int, high: int, part: int, whole: int) -> int {
    saturate(nearest(weighed(low, high, part, whole), whole))
}

/// `whole` times what lies `part` of `whole` of the way from `low` to `high`.
pub open spec fn weighed(low: int, high: int, part: int, whole: int) -> int {
    low * (whole - part) + high * part
}

/// A channel that is mixed in proportion to the alphas.
pub open spec fn premultiplied(
    low: int,
    low_alpha: int,
    high: int,
    high_alpha: int,
    part: int,
    whole: int,
) -> int {
    saturate(
        nearest(
            weighed(low * low_alpha, high * high_alpha, part, whole),
            weighed(low_alpha, high_alpha, part, whole),
        ),
    )
}

/// What lies `part` of `whole` of the way from one colour to another.
///
/// Colours are mixed in proportion to their alphas, so that a colour that fades
/// to nothing keeps its hue on the way. Where there is no alpha there is no
/// colour to weigh, and the channels are mixed as they are.
pub open spec fn mixed(low: Channels, high: Channels, part: int, whole: int) -> Channels {
    let alpha = weighed(low.a as int, high.a as int, part, whole);
    if alpha <= 0 {
        Channels {
            x: straight(low.x as int, high.x as int, part, whole) as i64,
            y: straight(low.y as int, high.y as int, part, whole) as i64,
            z: straight(low.z as int, high.z as int, part, whole) as i64,
            a: 0,
        }
    } else {
        Channels {
            x: premultiplied(
                low.x as int,
                low.a as int,
                high.x as int,
                high.a as int,
                part,
                whole,
            ) as i64,
            y: premultiplied(
                low.y as int,
                low.a as int,
                high.y as int,
                high.a as int,
                part,
                whole,
            ) as i64,
            z: premultiplied(
                low.z as int,
                low.a as int,
                high.z as int,
                high.a as int,
                part,
                whole,
            ) as i64,
            a: straight(low.a as int, high.a as int, part, whole) as i64,
        }
    }
}

proof fn lemma_weighed_is_small(low: int, high: int, part: int, whole: int, limit: int)
    requires
        -limit <= low <= limit,
        -limit <= high <= limit,
        0 <= part <= whole,
    ensures
        -(limit * whole) <= weighed(low, high, part, whole) <= limit * whole,
{
    let rest = whole - part;
    assert(-(limit * rest) <= low * rest <= limit * rest) by (nonlinear_arith)
        requires
            -limit <= low <= limit,
            0 <= rest,
    ;
    assert(-(limit * part) <= high * part <= limit * part) by (nonlinear_arith)
        requires
            -limit <= high <= limit,
            0 <= part,
    ;
    assert(limit * rest + limit * part == limit * whole) by (nonlinear_arith)
        requires
            rest == whole - part,
    ;
}

fn weigh(low: i128, high: i128, part: i64, whole: i64) -> (r: i128)
    requires
        -0x1_0000_0000_0000_0000_0000 <= low <= 0x1_0000_0000_0000_0000_0000,
        -0x1_0000_0000_0000_0000_0000 <= high <= 0x1_0000_0000_0000_0000_0000,
        0 <= part <= whole <= ONE,
    ensures
        r == weighed(low as int, high as int, part as int, whole as int),
        -0x1_0000_0000_0000_0000_0000_0000 <= r <= 0x1_0000_0000_0000_0000_0000_0000,
{
    proof {
        let limit: int = 0x1_0000_0000_0000_0000_0000;
        lemma_weighed_is_small(low as int, high as int, part as int, whole as int, limit);
        lemma_weighed_is_small(low as int, 0, part as int, whole as int, limit);
        lemma_weighed_is_small(0, high as int, part as int, whole as int, limit);
        assert(low * (whole - part) + 0 * part == low * (whole - part)) by (nonlinear_arith);
        assert(0 * (whole - part) + high * part == high * part) by (nonlinear_arith);
        assert(limit * whole <= limit * 65536) by (nonlinear_arith)
            requires
                whole <= 65536,
                limit >= 0,
        ;
    }
    low * (whole - part) as i128 + high * part as i128
}

fn ratio(numerator: i128, denominator: i128) -> (r: i64)
    requires
        0 < denominator <= 0x1_0000_0000_0000_0000_0000_0000,
        -0x1_0000_0000_0000_0000_0000_0000 <= numerator <= 0x1_0000_0000_0000_0000_0000_0000,
    ensures
        r == saturate(nearest(numerator as int, denominator as int)),
{
    saturated(floor_div(2 * numerator + denominator, 2 * denominator))
}

fn mix_channel(low: i64, low_alpha: i64, high: i64, high_alpha: i64, part: i64, whole: i64) -> (r:
    i64)
    requires
        is_mild(low),
        is_mild(low_alpha),
        is_mild(high),
        is_mild(high_alpha),
        0 <= part <= whole <= ONE,
        weighed(low_alpha as int, high_alpha as int, part as int, whole as int) > 0,
    ensures
        r == premultiplied(
            low as int,
            low_alpha as int,
            high as int,
            high_alpha as int,
            part as int,
            whole as int,
        ),
{
    assert(-0x1_0000_0000_0000_0000_0000 <= low * low_alpha <= 0x1_0000_0000_0000_0000_0000)
        by (nonlinear_arith)
        requires
            -0x100_0000_0000 <= low <= 0x100_0000_0000,
            -0x100_0000_0000 <= low_alpha <= 0x100_0000_0000,
    ;
    assert(-0x1_0000_0000_0000_0000_0000 <= high * high_alpha <= 0x1_0000_0000_0000_0000_0000)
        by (nonlinear_arith)
        requires
            -0x100_0000_0000 <= high <= 0x100_0000_0000,
            -0x100_0000_0000 <= high_alpha <= 0x100_0000_0000,
    ;
    let numerator: i128 = weigh(
        low as i128 * low_alpha as i128,
        high as i128 * high_alpha as i128,
        part,
        whole,
    );
    let denominator: i128 = weigh(low_alpha as i128, high_alpha as i128, part, whole);
    ratio(numerator, denominator)
}

fn mix_straight(low: i64, high: i64, part: i64, whole: i64) -> (r: i64)
    requires
        is_mild(low),
        is_mild(high),
        0 <= part <= whole <= ONE,
        0 < whole,
    ensures
        r == straight(low as int, high as int, part as int, whole as int),
{
    ratio(weigh(low as i128, high as i128, part, whole), whole as i128)
}

/// What lies `part` of `whole` of the way from `low` to `high`.
pub fn interpolate(low: Channels, high: Channels, part: i64, whole: i64) -> (r: Channels)
    requires
        low.wf(),
        high.wf(),
        0 <= part <= whole <= ONE,
        0 < whole,
    ensures
        r == mixed(low, high, part as int, whole as int),
{
    if weigh(low.a as i128, high.a as i128, part, whole) <= 0 {
        return Channels {
            x: mix_straight(low.x, high.x, part, whole),
            y: mix_straight(low.y, high.y, part, whole),
            z: mix_straight(low.z, high.z, part, whole),
            a: 0,
        };
    }
    Channels {
        x: mix_channel(low.x, low.a, high.x, high.a, part, whole),
        y: mix_channel(low.y, low.a, high.y, high.a, part, whole),
        z: mix_channel(low.z, low.a, high.z, high.a, part, whole),
        a: mix_straight(low.a, high.a, part, whole),
    }
}

/// The first stop from `from` on that stands at or past `at`.
pub open spec fn stop_past(stops: Seq<MixStop>, at: int, from: nat) -> Option<nat>
    decreases stops.len() - from,
{
    if from >= stops.len() {
        None
    } else if at <= stops[from as int].position {
        Some(from)
    } else {
        stop_past(stops, at, from + 1)
    }
}

/// The colour that the stops come to at `parameter`.
pub open spec fn sampled(stops: Seq<MixStop>, parameter: int) -> Channels {
    let at = unit_clamp(parameter);
    if stops.len() == 0 {
        Channels::nothing()
    } else {
        match stop_past(stops, at, 0) {
            None => stops.last().color,
            Some(i) => if i == 0 {
                stops[0].color
            } else {
                let low = stops[i - 1];
                let high = stops[i as int];
                mixed(
                    low.color,
                    high.color,
                    at - low.position,
                    high.position - low.position,
                )
            },
        }
    }
}

/// Whether the stops' positions lie within the gradient's range.
pub open spec fn positions_fit(stops: Seq<MixStop>) -> bool {
    forall|i: int| 0 <= i < stops.len() ==> 0 <= (#[trigger] stops[i]).position <= ONE
}

/// The colour that the stops come to at `parameter`.
pub fn sample(stops: &Vec<MixStop>, parameter: i64) -> (r: Channels)
    requires
        stops_wf(stops@),
        positions_fit(stops@),
    ensures
        r == sampled(stops@, parameter as int),
{
    let at: i64 = unit_clamped(parameter);
    if stops.len() == 0 {
        return Channels { x: 0, y: 0, z: 0, a: 0 };
    }
    let mut index: usize = 0;
    while index < stops.len()
        invariant
            index <= stops@.len(),
            stops@.len() > 0,
            stops_wf(stops@),
            positions_fit(stops@),
            at == unit_clamp(parameter as int),
            index > 0 ==> at > stops@[index - 1].position,
            stop_past(stops@, at as int, 0) == stop_past(stops@, at as int, index as nat),
        decreases stops@.len() - index,
    {
        if at <= stops[index].position {
            if index == 0 {
                return stops[0].color;
            }
            let low = stops[index - 1];
            let high = stops[index];
            assert(stops@[index - 1].color.wf() && stops@[index as int].color.wf());
            assert(0 <= stops@[index - 1].position && stops@[index as int].position <= ONE);
            return interpolate(
                low.color,
                high.color,
                at - low.position,
                high.position - low.position,
            );
        }
        index += 1;
    }
    stops[stops.len() - 1].color
}

/// The colour halfway along the stops: what is painted flat where the gradient
/// cannot be.
pub fn flat_midpoint(stops: &Vec<LinearColorStop>, colors: &Vec<Channels>) -> (r: Channels)
    requires
        stops@.len() == colors@.len(),
        colors_wf(colors@),
    ensures
        r == sampled(mix_stops(stops@, colors@), (ONE / 2) as int),
{
    let mixed = normalized_stops(stops, colors);
    sample(&mixed, ONE / 2)
}

/// A parameter that ran off the end of the stops, brought back as the mode
/// says.
pub open spec fn folded(parameter: int, extend: BrushExtend) -> int {
    match extend {
        BrushExtend::Pad => unit_clamp(parameter),
        BrushExtend::Repeat => parameter % (ONE as int),
        BrushExtend::Reflect => if parameter % (2 * ONE) <= ONE {
            parameter % (2 * ONE)
        } else {
            2 * ONE - parameter % (2 * ONE)
        },
    }
}

fn remainder(value: i64, by: i64) -> (r: i64)
    requires
        by == ONE || by == 2 * ONE,
    ensures
        r == value as int % by as int,
{
    let rest: i64 = value % by;
    if rest < 0 {
        rest + by
    } else {
        rest
    }
}

/// Bring a parameter that ran off the end of the stops back, as the mode says.
pub fn fold(parameter: i64, extend: BrushExtend) -> (r: i64)
    ensures
        r == folded(parameter as int, extend),
{
    match extend {
        BrushExtend::Pad => unit_clamped(parameter),
        BrushExtend::Repeat => remainder(parameter, ONE),
        BrushExtend::Reflect => {
            let wrapped: i64 = remainder(parameter, 2 * ONE);
            if wrapped <= ONE {
                wrapped
            } else {
                2 * ONE - wrapped
            }
        },
    }
}

/// A folded parameter is on the gradient, and one that was there already stays,
/// but for the very end of a gradient that repeats, which is its beginning. A
/// gradient that repeats does so every whole one; a mirrored one reads the same
/// in both directions, and repeats every two.
pub proof fn folding_brings_parameters_back(parameter: int, extend: BrushExtend)
    ensures
        0 <= folded(parameter, extend) <= ONE,
        0 <= parameter < ONE ==> folded(parameter, extend) == parameter,
        folded(parameter + ONE, BrushExtend::Repeat) == folded(parameter, BrushExtend::Repeat),
        folded(-parameter, BrushExtend::Reflect) == folded(parameter, BrushExtend::Reflect),
        folded(parameter + 2 * ONE, BrushExtend::Reflect) == folded(
            parameter,
            BrushExtend::Reflect,
        ),
{
    let wrapped = parameter % 131072;
    assert((-parameter) % 131072 == if wrapped == 0 {
        0
    } else {
        131072 - wrapped
    });
}

proof fn lemma_nearest_of_multiple(k: int, d: int)
    requires
        0 < d,
    ensures
        nearest(k * d, d) == k,
{
    assert((2 * (k * d) + d) / (2 * d) == k) by (nonlinear_arith)
        requires
            0 < d,
    ;
}

/// Before the first stop a gradient has the first stop's colour, past the last
/// stop the last one's, and at a stop, that stop's own.
pub proof fn stops_keep_their_colours(stops: Seq<MixStop>, k: int, parameter: int)
    requires
        0 <= k < stops.len(),
        positions_fit(stops),
        forall|i: int| 0 <= i < stops.len() ==> 0 <= (#[trigger] stops[i]).color.a,
        forall|i: int| 0 <= i < k ==> (#[trigger] stops[i]).position < stops[k].position,
        parameter == stops[k].position || k == 0 && parameter <= stops[k].position || k
            == stops.len() - 1 && parameter >= stops[k].position,
    ensures
        sampled(stops, parameter) == stops[k].color,
{
    let at = unit_clamp(parameter);
    assert(0 <= stops[k].position <= ONE);
    if at <= stops[k].position {
        assert(at == stops[k].position || k == 0);
        lemma_stop_past(stops, at, 0, k as nat);
        if k > 0 {
            let low = stops[k - 1];
            let high = stops[k];
            assert(stops[k - 1].position < stops[k].position);
            lemma_mixed_end(low.color, high.color, high.position - low.position);
        }
    } else {
        assert(k == stops.len() - 1);
        lemma_none_past(stops, at, 0);
    }
}

proof fn lemma_stop_past(stops: Seq<MixStop>, at: int, from: nat, k: nat)
    requires
        from <= k < stops.len(),
        at <= stops[k as int].position,
        forall|i: int| from <= i < k ==> (#[trigger] stops[i]).position < at,
    ensures
        stop_past(stops, at, from) == Some(k),
    decreases k - from,
{
    if from < k {
        assert(stops[from as int].position < at);
        lemma_stop_past(stops, at, from + 1, k);
    }
}

proof fn lemma_none_past(stops: Seq<MixStop>, at: int, from: nat)
    requires
        forall|i: int| from <= i < stops.len() ==> (#[trigger] stops[i]).position < at,
    ensures
        stop_past(stops, at, from) is None,
    decreases stops.len() - from,
{
    if from < stops.len() {
        assert(stops[from as int].position < at);
        lemma_none_past(stops, at, from + 1);
    }
}

proof fn lemma_mixed_end(low: Channels, high: Channels, whole: int)
    requires
        0 < whole,
        0 <= high.a,
    ensures
        mixed(low, high, whole, whole) == high,
{
    lemma_weighed_end(low.a as int, high.a as int, whole);
    lemma_weighed_end(low.x as int, high.x as int, whole);
    lemma_weighed_end(low.y as int, high.y as int, whole);
    lemma_weighed_end(low.z as int, high.z as int, whole);
    lemma_nearest_of_multiple(high.a as int, whole);
    if high.a == 0 {
        assert(0 * whole == 0);
        lemma_nearest_of_multiple(high.x as int, whole);
        lemma_nearest_of_multiple(high.y as int, whole);
        lemma_nearest_of_multiple(high.z as int, whole);
    } else {
        let alpha = high.a * whole;
        assert(alpha > 0) by (nonlinear_arith)
            requires
                alpha == high.a * whole,
                high.a > 0,
                whole > 0,
        ;
        lemma_premultiplied_end(low.x as int, low.a as int, high.x as int, high.a as int, whole);
        lemma_premultiplied_end(low.y as int, low.a as int, high.y as int, high.a as int, whole);
        lemma_premultiplied_end(low.z as int, low.a as int, high.z as int, high.a as int, whole);
    }
}

proof fn lemma_weighed_end(low: int, high: int, whole: int)
    ensures
        weighed(low, high, whole, whole) == high * whole,
{
    assert(low * (whole - whole) == 0) by (nonlinear_arith);
}

proof fn lemma_premultiplied_end(low: int, low_alpha: int, high: int, high_alpha: int, whole: int)
    requires
        0 < whole,
        0 < high_alpha,
        i64::MIN <= high <= i64::MAX,
    ensures
        premultiplied(low, low_alpha, high, high_alpha, whole, whole) == high,
{
    lemma_weighed_end(low * low_alpha, high * high_alpha, whole);
    lemma_weighed_end(low_alpha, high_alpha, whole);
    let alpha = high_alpha * whole;
    assert(alpha > 0) by (nonlinear_arith)
        requires
            alpha == high_alpha * whole,
            high_alpha > 0,
            whole > 0,
    ;
    assert(high * high_alpha * whole == high * alpha) by (nonlinear_arith)
        requires
            alpha == high_alpha * whole,
    ;
    lemma_nearest_of_multiple(high, alpha);
}

/// A colour that fades to nothing keeps its channels on the way, and only its
/// alpha comes down.
pub proof fn fading_keeps_the_colour(low: Channels, high: Channels, part: int, whole: int)
    requires
        0 <= part < whole,
        0 < low.a,
        high.a == 0,
    ensures
        mixed(low, high, part, whole).x == low.x,
        mixed(low, high, part, whole).y == low.y,
        mixed(low, high, part, whole).z == low.z,
        mixed(low, high, part, whole).a <= low.a,
{
    let rest = whole - part;
    let alpha = weighed(low.a as int, 0, part, whole);
    assert(0 * part == 0);
    assert(alpha == low.a * rest);
    assert(alpha > 0) by (nonlinear_arith)
        requires
            alpha == low.a * rest,
            low.a > 0,
            rest > 0,
    ;
    lemma_fading(low.x as int, low.a as int, high.x as int, part, whole);
    lemma_fading(low.y as int, low.a as int, high.y as int, part, whole);
    lemma_fading(low.z as int, low.a as int, high.z as int, part, whole);
    assert(nearest(alpha, whole) <= low.a) by (nonlinear_arith)
        requires
            alpha == low.a * rest,
            0 < rest <= whole,
            low.a > 0,
            nearest(alpha, whole) == (2 * alpha + whole) / (2 * whole),
    ;
    assert(nearest(alpha, whole) >= 0) by (nonlinear_arith)
        requires
            alpha > 0,
            whole > 0,
            nearest(alpha, whole) == (2 * alpha + whole) / (2 * whole),
    ;
}

proof fn lemma_fading(low: int, low_alpha: int, high: int, part: int, whole: int)
    requires
        0 <= part < whole,
        0 < low_alpha,
        i64::MIN <= low <= i64::MAX,
    ensures
        premultiplied(low, low_alpha, high, 0, part, whole) == low,
{
    let rest = whole - part;
    let alpha = low_alpha * rest;
    assert(high * 0 == 0) by (nonlinear_arith);
    assert(0 * part == 0);
    assert(weighed(low_alpha, 0, part, whole) == alpha);
    assert(weighed(low * low_alpha, high * 0, part, whole) == low * alpha) by (nonlinear_arith)
        requires
            weighed(low * low_alpha, high * 0, part, whole) == low * low_alpha * rest + high * 0
                * part,
            alpha == low_alpha * rest,
    ;
    assert(alpha > 0) by (nonlinear_arith)
        requires
            alpha == low_alpha * rest,
            low_alpha > 0,
            rest > 0,
    ;
    lemma_nearest_of_multiple(low, alpha);
}

} // verus!
