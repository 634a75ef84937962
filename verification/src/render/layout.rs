//! Where things stand at an airport: along a heading, beside a leg, on a runway.
use crate::binary64;
use crate::binary64::Binary64;
use crate::near;
use crate::render::apron;
use crate::render::facing;
use crate::render::holding_side;
use crate::render::runway;
use crate::render::runway::Strip;
use crate::render::runway_lights;
use crate::render::surface::{Bearing, Geodetic, Rgb, SurfaceVertex};
use crate::render::taxiway;
use crate::render::taxiway::Coat;
use crate::render::taxiway_lights;
use crate::render::taxiway_lights::{GroundLightKind, PathSegment};
use crate::rounding;
use crate::rounding::Format;
use vstd::arithmetic::power2::*;
use vstd::prelude::*;

verus! {

/// How far ahead along a heading a step to the north and the east goes, and how
/// far to the right, in counts.
pub open spec fn is_step(heading: Bearing, north: Binary64, east: Binary64, along: int, across: int) -> bool {
    let o = Binary64::one() as int;
    let (n, e) = (north.value(), east.value());
    let (s, c) = (heading.sin.value(), heading.cos.value());
    let unit = c * c + s * s;
    let slack = 2 * (facing::slack() * (o * o));
    &&& north.is_finite() && east.is_finite()
    &&& -slack <= (n * c + e * s) * o - along * unit <= slack
    &&& -slack <= (e * c - n * s) * o - across * unit <= slack
}

proof fn lemma_step(heading: Bearing, along: Binary64, across: Binary64)
    requires
        facing::is_direction(heading),
        facing::in_reach(along),
        facing::in_reach(across),
    ensures
        is_step(
            heading,
            heading.north(along, across),
            heading.east(along, across),
            along.value(),
            across.value(),
        ),
{
    let o = Binary64::one() as int;
    let t = facing::slack() * o;
    lemma_pow2_pos(1074);
    lemma_pow2_pos(1045);
    facing::lemma_place(heading, along, across);
    assert(t >= 0) by (nonlinear_arith)
        requires
            t == facing::slack() * o,
            o > 0,
    ;
    holding_side::lemma_turned_back(
        heading.north(along, across).value(),
        heading.east(along, across).value(),
        along.value(),
        across.value(),
        heading.sin.value(),
        heading.cos.value(),
        o,
        t,
    );
    assert(t * o == facing::slack() * (o * o)) by (nonlinear_arith)
        requires
            t == facing::slack() * o,
    ;
}

/// A painted point lies so far ahead of its anchor along the heading and so far
/// to the right of it, but for rounding.
pub proof fn a_point_lies_ahead_and_to_the_right(
    anchor: Geodetic,
    heading: Bearing,
    along: Binary64,
    across: Binary64,
    lift: Binary64,
    paint: Rgb,
)
    requires
        facing::is_direction(heading),
        facing::in_reach(along),
        facing::in_reach(across),
    ensures
        ({
            let v = SurfaceVertex::ahead(anchor, heading, along, across, lift, paint);
            &&& v.anchor == anchor
            &&& v.lift == lift
            &&& is_step(heading, v.north, v.east, along.value(), across.value())
        }),
{
    lemma_step(heading, along, across);
}

/// A light of a taxiway stands on its leg: as far ahead as its distance beyond
/// the leg's start, and aside, where it stands aside, square to the leg and to
/// the right by its offset. Its altitude goes from that of the leg's start to
/// that of its end.
pub proof fn a_light_stands_on_its_leg(
    segments: Seq<PathSegment>,
    distance: Binary64,
    across: Option<Binary64>,
    kind: GroundLightKind,
)
    requires
        ({
            let leg = taxiway_lights::segment_for(segments, distance);
            let along = distance - leg.start_distance;
            &&& facing::is_direction(leg.heading)
            &&& near::sized(leg.length, 0x10000)
            &&& leg.length.value() >= Binary64::one()
            &&& along.is_finite()
            &&& 0 <= along.value() <= leg.length.value()
            &&& near::sized(leg.start.altitude, 0x10000)
            &&& near::sized(leg.end_altitude, 0x10000)
        }),
        across matches Some(a) ==> facing::in_reach(a),
    ensures
        ({
            let leg = taxiway_lights::segment_for(segments, distance);
            let spot = taxiway_lights::light_at(segments, distance, across, kind);
            let along = (distance - leg.start_distance).value();
            let (a, b, h) = (
                leg.start.altitude.value(),
                leg.end_altitude.value(),
                spot.altitude.value(),
            );
            let slack = 2 * near::grain();
            &&& spot.start == leg.start
            &&& spot.kind == kind
            &&& is_step(leg.heading, spot.north, spot.east, along, 0)
            &&& match across {
                Some(aside) => spot.side matches Some(step) && is_step(
                    leg.heading,
                    step.north,
                    step.east,
                    0,
                    aside.value(),
                ),
                None => spot.side is None,
            }
            &&& a <= b ==> a <= h <= b + slack
            &&& b <= a ==> b - slack <= h <= a
            &&& along == 0 ==> h == a
            &&& along == leg.length.value() ==> near::within(h, b, slack)
        }),
{
    let leg = taxiway_lights::segment_for(segments, distance);
    let zero = Binary64::of(0);
    let raw = distance - leg.start_distance;
    binary64::lemma_of(0);
    near::lemma_grain();
    binary64::lemma_order(raw, zero);
    binary64::lemma_order(leg.length, raw);
    let along = raw.clamp(zero, leg.length);
    assert(along == raw);
    near::lemma_small_of(0, 0);
    facing::lemma_small_in_reach(zero, 0);
    assert(near::sized(along, 0x10000));
    facing::lemma_small_in_reach(along, 0x10000);
    lemma_step(leg.heading, along, zero);
    if let Some(a) = across {
        lemma_step(leg.heading, zero, a);
    }
    lemma_between_ends(leg.start.altitude, leg.end_altitude, along, leg.length);
}

/// An altitude part of the way along.
proof fn lemma_between_ends(start: Binary64, end: Binary64, along: Binary64, length: Binary64)
    requires
        near::sized(start, 0x10000),
        near::sized(end, 0x10000),
        along.is_finite(),
        length.is_finite(),
        length.value() >= Binary64::one(),
        0 <= along.value() <= length.value(),
    ensures
        ({
            let h = (start + (end - start) * (along / length)).value();
            let (a, b) = (start.value(), end.value());
            let slack = 2 * near::grain();
            &&& a <= b ==> a <= h <= b + slack
            &&& b <= a ==> b - slack <= h <= a
            &&& along.value() == 0 ==> h == a
            &&& along.value() == length.value() ==> near::within(h, b, slack)
        }),
{
    let o = Binary64::one() as int;
    let (zero, one) = (Binary64::of(0), Binary64::of(1));
    let l = length.value();
    binary64::lemma_of(0);
    binary64::lemma_of(1);
    assert(0 * l <= along.value() * o <= o * l) by (nonlinear_arith)
        requires
            0 <= along.value() <= l,
            o > 0,
    ;
    binary64::lemma_quotient_between(along, length, zero, one);
    if along.value() == 0 {
        binary64::lemma_quotient_between(along, length, zero, zero);
    }
    if along.value() == l {
        assert(l * o == o * l) by (nonlinear_arith);
        binary64::lemma_quotient_between(along, length, one, one);
    }
    lemma_part_way(start, end, along / length);
}

/// What lies part of the way from one number to another lies between them, at
/// the first where the part is none and at the second where it is all.
pub proof fn lemma_part_way(start: Binary64, end: Binary64, share: Binary64)
    requires
        near::sized(start, 0x10000),
        near::sized(end, 0x10000),
        share.is_finite(),
        0 <= share.value() <= Binary64::one(),
    ensures
        ({
            let r = start + (end - start) * share;
            let h = r.value();
            let (a, b) = (start.value(), end.value());
            let slack = 2 * near::grain();
            &&& r.is_finite()
            &&& a <= b ==> a <= h <= b + slack
            &&& b <= a ==> b - slack <= h <= a
            &&& share.value() == 0 ==> h == a
            &&& share.value() == Binary64::one() ==> near::within(h, b, slack)
        }),
{
    let o = Binary64::one() as int;
    let zero = Binary64::of(0);
    let (a, b) = (start.value(), end.value());
    let rise = end - start;
    binary64::lemma_of(0);
    near::lemma_grain();
    near::lemma_small_difference(end, start, 0x10000, 0x10000);
    binary64::lemma_negate(start);
    assert(rise == end + start.negate());
    binary64::lemma_add(end, start.negate());
    binary64::lemma_round_exact(zero, 1);
    let (d, s) = (rise.value(), share.value());
    if a <= b {
        binary64::lemma_round_monotone(0, b - a, 1);
        assert(0 * o <= d * s <= d * o) by (nonlinear_arith)
            requires
                0 <= s <= o,
                d >= 0,
        ;
        binary64::lemma_product_between(rise, share, zero, rise);
    }
    if b <= a {
        binary64::lemma_round_monotone(b - a, 0, 1);
        assert(d * o <= d * s <= 0 * o) by (nonlinear_arith)
            requires
                0 <= s <= o,
                d <= 0,
        ;
        binary64::lemma_product_between(rise, share, rise, zero);
    }
    let part = rise * share;
    assert(near::sized(part, 0x20001));
    near::lemma_small_sum(start, part, 0x10000, 0x20001);
    binary64::lemma_add(start, part);
    binary64::lemma_order(start, start);
    binary64::lemma_round_exact(start, 1);
    if a <= b {
        binary64::lemma_round_monotone(a, a + part.value(), 1);
    }
    if b <= a {
        binary64::lemma_round_monotone(a + part.value(), a, 1);
    }
    if s == 0 {
        assert(d * s == 0) by (nonlinear_arith)
            requires
                s == 0,
        ;
        assert(0 * o == 0);
        binary64::lemma_product_between(rise, share, zero, zero);
    }
    if s == o {
        assert(d * s == d * o) by (nonlinear_arith)
            requires
                s == o,
        ;
        binary64::lemma_product_between(rise, share, rise, rise);
    }
}

/// Opposite parts make opposite sums.
pub proof fn lemma_opposite_total(a: Binary64, b: Binary64, c: Binary64, d: Binary64)
    requires
        a.is_finite() && b.is_finite() && c.is_finite() && d.is_finite(),
        a.value() == -c.value(),
        b.value() == -d.value(),
    ensures
        (a + b).value() == -(c + d).value(),
{
    binary64::lemma_add(a, b);
    binary64::lemma_add(c, d);
    if c.value() + d.value() == 0 {
        rounding::lemma_round_zero(Format::Double, 1);
    }
}

/// A strip lies the other way across from another.
pub open spec fn mirrored(a: Strip, b: Strip) -> bool {
    &&& a.across_left.value() == -b.across_right.value()
    &&& a.across_right.value() == -b.across_left.value()
    &&& a.along_near == b.along_near
    &&& a.along_far == b.along_far
}

/// The markings of a runway lie the same to the left and to the right of its
/// centre line: the pavement and every dash are their own mirror images and
/// the bars at the ends come in pairs. The pavement goes from one end to the
/// other and half the width to either side.
pub proof fn a_runway_is_the_same_left_and_right(length: Binary64, width: Binary64, k: int, pair: int)
    requires
        runway::is_runway(length, width),
        0 <= pair < 8,
    ensures
        ({
            let ground = runway::pavement(length, width);
            let dash = runway::dash(k);
            &&& mirrored(ground, ground)
            &&& ground.along_near.value() == 0
            &&& ground.along_far == length
            &&& near::within(2 * ground.across_right.value(), width.value(), 0x2010 * near::grain())
            &&& mirrored(dash, dash)
            &&& mirrored(
                runway::key(length, width, 2 * pair),
                runway::key(length, width, 2 * pair + 1),
            )
        }),
{
    let half = Binary64::ratio(1, 2);
    let o = Binary64::one() as int;
    let g = near::grain() as int;
    near::lemma_grain();
    binary64::lemma_of(0);
    near::lemma_small_ratio(1, 2, 1);
    near::lemma_ratio(1, 2);
    near::lemma_small_ratio(9, 10, 1);
    near::lemma_opposite_product(width, half);
    near::lemma_opposite_product(Binary64::ratio(9, 10), half);
    near::lemma_small_product(width, half, 0x1000, 1);
    let (w, h, r) = (width.value(), half.value(), (width * half).value());
    assert(near::within(2 * r, w, 0x2010 * near::grain())) by {
        let e = 2 * h - o;
        assert(-(2 * g) <= e <= 2 * g);
        assert((w * h) * 2 == w * o + w * e) by (nonlinear_arith)
            requires
                e == 2 * h - o,
        ;
        assert(-(0x2000 * (g * o)) <= w * e <= 0x2000 * (g * o)) by (nonlinear_arith)
            requires
                -(0x1000 * o) <= w <= 0x1000 * o,
                w >= 0,
                -(2 * g) <= e <= 2 * g,
        ;
        assert((2 * r) * o == 2 * (r * o)) by (nonlinear_arith);
        assert(-(0x2002 * (g * o)) <= (2 * r) * o - w * o <= 0x2002 * (g * o));
        assert(-(0x2002 * g) <= 2 * r - w <= 0x2002 * g) by (nonlinear_arith)
            requires
                -(0x2002 * (g * o)) <= (2 * r) * o - w * o <= 0x2002 * (g * o),
                o > 0,
        {
            let d = 2 * r - w;
            assert((2 * r) * o - w * o == d * o) by (nonlinear_arith)
                requires
                    d == 2 * r - w,
            ;
            let m = 0x2002 * g;
            assert(0x2002 * (g * o) == m * o) by (nonlinear_arith)
                requires
                    m == 0x2002 * g,
            ;
            assert((-m) * o == -(m * o)) by (nonlinear_arith);
            assert(-m <= d <= m) by (nonlinear_arith)
                requires
                    (-m) * o <= d * o <= m * o,
                    o > 0,
            ;
        }
    }
    lemma_pair(length, width, pair);
}

/// Two bars of one place, left and right.
#[verifier::spinoff_prover]
#[verifier::rlimit(60)]
proof fn lemma_pair(length: Binary64, width: Binary64, pair: int)
    requires
        runway::is_runway(length, width),
        0 <= pair < 8,
    ensures
        mirrored(runway::key(length, width, 2 * pair), runway::key(length, width, 2 * pair + 1)),
{
    let i = 2 * pair;
    let one = Binary64::of(1);
    let place = Binary64::of(((i % 8) / 2) as i64);
    let half = Binary64::ratio(1, 2);
    near::lemma_grain();
    near::lemma_small_of(((i % 8) / 2) as i64, 3);
    near::lemma_small_of(1, 1);
    near::lemma_small_of(2, 2);
    near::lemma_small_of(4, 4);
    binary64::lemma_of(1);
    binary64::lemma_negate(one);
    near::lemma_small_ratio(1, 2, 1);
    near::lemma_small_ratio(3, 2, 2);
    near::lemma_small_ratio(18, 10, 2);
    near::lemma_small_sum(place, half, 3, 1);
    near::lemma_small_product(width, half, 0x1000, 1);
    near::lemma_small_difference(width * half, Binary64::of(2), 0x1001, 2);
    let room = width * half - Binary64::of(2);
    near::lemma_small_product(place + half, room, 5, 0x1004);
    let share = (place + half) * room;
    near::lemma_small_quotient(share, Binary64::of(4), 20501);
    near::lemma_small_sum(share / Binary64::of(4), Binary64::ratio(3, 2), 20501, 2);
    let offset = share / Binary64::of(4) + Binary64::ratio(3, 2);
    near::lemma_small_product(one, offset, 1, 20504);
    near::lemma_small_product(one.negate(), offset, 1, 20504);
    near::lemma_opposite_product(one, offset);
    let thick = Binary64::ratio(18, 10) * half;
    near::lemma_small_product(Binary64::ratio(18, 10), half, 2, 1);
    binary64::lemma_negate(thick);
    let (l, r) = (one.negate() * offset, one * offset);
    assert(l - thick == l + thick.negate());
    assert(r - thick == r + thick.negate());
    lemma_opposite_total(l, thick.negate(), r, thick);
    lemma_opposite_total(l, thick, r, thick.negate());
    assert((2 * pair + 1) % 8 / 2 == (2 * pair) % 8 / 2);
    assert((2 * pair + 1) / 8 == (2 * pair) / 8);
    assert((2 * pair) % 2 == 0 && (2 * pair + 1) % 2 == 1);
}

/// The lights of a runway: white ones along both edges, left and right alike,
/// from one end to the other, ten green ones across the threshold and ten red
/// ones across the far end.
pub proof fn the_threshold_is_green_and_the_end_is_red(length: Binary64, width: Binary64, i: int)
    requires
        runway::is_runway(length, width),
        0 <= i < runway_lights::runway_lights_spec(length, width).len(),
    ensures
        ({
            let lights = runway_lights::runway_lights_spec(length, width);
            let edges = lights.len() - 20;
            let light = lights[i];
            &&& edges >= 2
            &&& i < edges ==> light.color == runway_lights::edge_color()
            &&& edges <= i < edges + 10 ==> light.color == runway_lights::threshold_green()
                && light.along.value() == 0
            &&& edges + 10 <= i ==> light.color == runway_lights::end_red() && light.along == length
            &&& i + 1 < lights.len() && i % 2 == 0 ==> light.across.value() == -lights[i
                + 1].across.value() && light.along == lights[i + 1].along
        }),
{
    let zero = Binary64::of(0);
    let n = runway_lights::edge_intervals(length);
    let lights = runway_lights::runway_lights_spec(length, width);
    binary64::lemma_of(0);
    binary64::lemma_order(length, zero);
    binary64::lemma_order(width, zero);
    near::lemma_grain();
    runway_lights::lemma_intervals(length);
    let edges = 2 * (n + 1);
    assert(lights.len() == edges + 20);
    if i % 2 == 0 && i + 1 < lights.len() {
        let half = Binary64::ratio(1, 2);
        let one = Binary64::of(1);
        near::lemma_small_of(1, 1);
        binary64::lemma_of(1);
        near::lemma_small_ratio(1, 2, 1);
        near::lemma_small_ratio(3, 2, 2);
        near::lemma_small_product(width, half, 0x1000, 1);
        near::lemma_small_sum(width * half, Binary64::ratio(3, 2), 0x1001, 2);
        if i < edges {
            let out = width * half + Binary64::ratio(3, 2);
            near::lemma_opposite_product(one, out);
            assert((i + 1) / 2 == i / 2);
        } else {
            let j = if i < edges + 10 {
                i - edges
            } else {
                i - edges - 10
            };
            let place = Binary64::of((j / 2) as i64);
            near::lemma_small_of((j / 2) as i64, 5);
            near::lemma_small_of(5, 5);
            near::lemma_small_sum(place, half, 5, 1);
            near::lemma_small_quotient(place + half, Binary64::of(5), 7);
            let share = (place + half) / Binary64::of(5);
            near::lemma_small_product(share, width, 7, 0x1000);
            near::lemma_small_product(share * width, half, 0x7001, 1);
            near::lemma_opposite_product(one, (share * width) * half);
            assert((j + 1) / 2 == j / 2);
        }
    }
}

/// A point moved sideways from the centre line of a taxiway lies square to the
/// heading and to the right of it, but for rounding.
pub proof fn a_taxiway_reaches_square_to_its_heading(
    point: Geodetic,
    heading: Bearing,
    across: Binary64,
    coat: Coat,
)
    requires
        facing::is_direction(heading),
        near::sized(across, 0x1000),
    ensures
        ({
            let v = taxiway::spec_lateral(point, heading, across, coat);
            &&& v.anchor == point
            &&& v.lift == coat.lift
            &&& is_step(heading, v.north, v.east, 0, across.value())
        }),
{
    let o = Binary64::one() as int;
    let g = near::grain() as int;
    let v = taxiway::spec_lateral(point, heading, across, coat);
    let (s, c, b) = (heading.sin.value(), heading.cos.value(), across.value());
    lemma_pow2_pos(1074);
    lemma_pow2_pos(1045);
    lemma_pow2_adds(1042, 3);
    lemma2_to64();
    near::lemma_grain();
    binary64::lemma_negate(across);
    assert(1 * o == o);
    near::lemma_small_product(across.negate(), heading.sin, 0x1000, 1);
    near::lemma_small_product(across, heading.cos, 0x1000, 1);
    let t = facing::slack() * o;
    assert(g * o <= t && t >= 0) by (nonlinear_arith)
        requires
            t == facing::slack() * o,
            facing::slack() == 8 * g,
            g > 0,
            o > 0,
    ;
    assert((-b) * s == -(b * s)) by (nonlinear_arith);
    assert(0 * c == 0 && 0 * s == 0);
    holding_side::lemma_turned_back(v.north.value(), v.east.value(), 0, b, s, c, o, t);
    assert(t * o == facing::slack() * (o * o)) by (nonlinear_arith)
        requires
            t == facing::slack() * o,
    ;
}

/// What is drawn on the ground lies in layers: the apron lowest, then the
/// taxiway and its centre line, and the pavement of a runway above that of a
/// taxiway, with its markings on top.
pub proof fn the_runway_shows_on_top(point: Geodetic, color: Rgb)
    ensures
        0 < apron::corner(point, color).lift.value() < taxiway::pavement_lift().value(),
        taxiway::pavement_lift().value() < taxiway::marking_lift().value(),
        taxiway::pavement_lift().value() < runway::pavement_lift().value(),
        runway::pavement_lift().value() < runway::marking_lift().value(),
        taxiway::marking_lift().value() < runway::marking_lift().value(),
{
    near::lemma_grain();
    near::lemma_ratio(4, 100);
    near::lemma_ratio(5, 100);
    near::lemma_ratio(6, 100);
    near::lemma_ratio(8, 100);
    near::lemma_small_ratio(5, 100, 1);
    near::lemma_small_ratio(6, 100, 1);
    near::lemma_small_ratio(8, 100, 1);
    near::lemma_small_sum(Binary64::ratio(6, 100), Binary64::ratio(5, 100), 1, 1);
    near::lemma_small_sum(Binary64::ratio(8, 100), Binary64::ratio(5, 100), 1, 1);
}

} // verus!
