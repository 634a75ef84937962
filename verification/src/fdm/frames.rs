//! North, east and down: to earth-fixed axes and back.
use crate::binary64;
use crate::binary64::Binary64;
use crate::fdm::cone;
use crate::fdm::newton;
use crate::fdm::state::{LocalFrame, RigidBodyState};
use crate::fdm::turbulence::Turbulence;
use crate::geodetic::Geodetic;
use crate::inverse;
use crate::norm;
use crate::number;
use crate::track;
use crate::vector::DVec3;
use vstd::arithmetic::power2::*;
use vstd::prelude::*;

verus! {

/// The axes are directions: no part of them is more than two.
pub open spec fn has_axes(frame: LocalFrame) -> bool {
    &&& inverse::at_most(frame.north, 1075)
    &&& inverse::at_most(frame.east, 1075)
    &&& inverse::at_most(frame.down, 1075)
}

/// Three products together beside what they would be without rounding.
proof fn lemma_three(a: Binary64, x: Binary64, b: Binary64, y: Binary64, c: Binary64, z: Binary64, power: nat)
    requires
        a.is_finite() && number::magnitude_of(a.value()) <= pow2(1075),
        b.is_finite() && number::magnitude_of(b.value()) <= pow2(1075),
        c.is_finite() && number::magnitude_of(c.value()) <= pow2(1075),
        x.is_finite() && number::magnitude_of(x.value()) <= pow2(power),
        y.is_finite() && number::magnitude_of(y.value()) <= pow2(power),
        z.is_finite() && number::magnitude_of(z.value()) <= pow2(power),
        100 <= power <= 1700,
    ensures
        ({
            let r = a * x + b * y + c * z;
            track::tracked_by(
                r,
                a.value() * x.value() + b.value() * y.value() + c.value() * z.value(),
                Binary64::one() as int,
                power + 6,
                50,
            )
        }),
{
    let o = Binary64::one() as int;
    let (p, q, s) = (a.value() * x.value(), b.value() * y.value(), c.value() * z.value());
    lemma_product(a, x, power);
    lemma_product(b, y, power);
    lemma_product(c, z, power);
    track::lemma_plus(a * x, b * y, p, q, o, power + 2, 50);
    track::lemma_looser(c * z, s, o, power + 2, 50, power + 4, 50);
    track::lemma_plus(a * x + b * y, c * z, p + q, s, o, power + 4, 50);
}

proof fn lemma_product(a: Binary64, x: Binary64, power: nat)
    requires
        a.is_finite() && number::magnitude_of(a.value()) <= pow2(1075),
        x.is_finite() && number::magnitude_of(x.value()) <= pow2(power),
        100 <= power <= 1700,
    ensures
        track::tracked_by(a * x, a.value() * x.value(), Binary64::one() as int, power + 2, 50),
{
    let o = Binary64::one() as int;
    track::lemma_itself(a, 1075, 51);
    track::lemma_itself(x, power, 51);
    track::lemma_times(a, x, a.value(), x.value(), 1, 1, 1075, power, 51);
    assert(o * (1 * 1) == o);
}

/// The product of two vectors, without rounding.
pub open spec fn dot_of(a: DVec3, b: DVec3) -> int {
    a.x.value() * b.x.value() + a.y.value() * b.y.value() + a.z.value() * b.z.value()
}

/// What follows a count to within one part in two to the forty-four of a power.
proof fn lemma_close(r: Binary64, exact: int, power: nat)
    requires
        track::tracked_by(r, exact, Binary64::one() as int, power + 6, 50),
    ensures
        ({
            let o = Binary64::one() as int;
            -(pow2(power) * o) <= 0x100000000000 * (r.value() * o - exact) <= pow2(power) * o
        }),
{
    let o = Binary64::one() as int;
    let p = pow2(power) as int;
    lemma_pow2_adds(power, 6);
    lemma2_to64();
    lemma2_to64_rest();
    assert(pow2(power + 6) * o == 64 * (p * o)) by (nonlinear_arith)
        requires
            pow2(power + 6) == p * 64,
    ;
}

/// Near to a count, to within one part in two to the forty-four of a power.
pub open spec fn close_to(r: int, exact: int, power: nat) -> bool {
    let o = Binary64::one() as int;
    -(pow2(power) * o) <= 0x100000000000 * (r * o - exact) <= pow2(power) * o
}

/// An earth-fixed vector goes north, east and down by its products with those
/// axes, its rate upwards is its product with the way up, and a vector given
/// north, east and down goes so far along each of the axes. All but for
/// rounding.
pub proof fn a_frame_goes_by_its_axes(frame: LocalFrame, state: RigidBodyState, ned: DVec3, power: nat)
    requires
        has_axes(frame),
        inverse::at_most(state.velocity, power),
        inverse::at_most(ned, power),
        100 <= power <= 1700,
    ensures
        ({
            let v = state.velocity;
            let back = state.velocity_ned(frame);
            let out = frame.ned_to_ecef(ned);
            let (n, e, d) = (ned.x.value(), ned.y.value(), ned.z.value());
            &&& close_to(back.x.value(), dot_of(frame.north, v), power)
            &&& close_to(back.y.value(), dot_of(frame.east, v), power)
            &&& close_to(back.z.value(), dot_of(frame.down, v), power)
            &&& close_to(state.vertical_speed(frame).value(), dot_of(frame.up(), v), power)
            &&& close_to(
                out.x.value(),
                n * frame.north.x.value() + e * frame.east.x.value() + d * frame.down.x.value(),
                power,
            )
            &&& close_to(
                out.y.value(),
                n * frame.north.y.value() + e * frame.east.y.value() + d * frame.down.y.value(),
                power,
            )
            &&& close_to(
                out.z.value(),
                n * frame.north.z.value() + e * frame.east.z.value() + d * frame.down.z.value(),
                power,
            )
        }),
{
    let v = state.velocity;
    lemma_dot(frame.north, v, power);
    lemma_dot(frame.east, v, power);
    lemma_dot(frame.down, v, power);
    let d = frame.down;
    binary64::lemma_negate(d.x);
    binary64::lemma_negate(d.y);
    binary64::lemma_negate(d.z);
    binary64::lemma_negate(d.dot(v));
    let (a, b, c) = (d.x.value(), d.y.value(), d.z.value());
    let (x, y, z) = (v.x.value(), v.y.value(), v.z.value());
    assert((-a) * x == -(a * x) && (-b) * y == -(b * y) && (-c) * z == -(c * z))
        by (nonlinear_arith);
    let o = Binary64::one() as int;
    let w = d.dot(v).value();
    assert((-w) * o == -(w * o)) by (nonlinear_arith);
    lemma_part(frame.north.x, frame.east.x, frame.down.x, ned, power);
    lemma_part(frame.north.y, frame.east.y, frame.down.y, ned, power);
    lemma_part(frame.north.z, frame.east.z, frame.down.z, ned, power);
}

proof fn lemma_dot(a: DVec3, v: DVec3, power: nat)
    requires
        inverse::at_most(a, 1075),
        inverse::at_most(v, power),
        100 <= power <= 1700,
    ensures
        a.dot(v).is_finite(),
        close_to(a.dot(v).value(), dot_of(a, v), power),
{
    lemma_three(a.x, v.x, a.y, v.y, a.z, v.z, power);
    lemma_close(a.dot(v), dot_of(a, v), power);
}

pub proof fn lemma_part(a: Binary64, b: Binary64, c: Binary64, ned: DVec3, power: nat)
    requires
        a.is_finite() && number::magnitude_of(a.value()) <= pow2(1075),
        b.is_finite() && number::magnitude_of(b.value()) <= pow2(1075),
        c.is_finite() && number::magnitude_of(c.value()) <= pow2(1075),
        inverse::at_most(ned, power),
        100 <= power <= 1700,
    ensures
        ({
            let r = a * ned.x + b * ned.y + c * ned.z;
            &&& r.is_finite()
            &&& number::magnitude_of(r.value()) <= pow2(power + 6)
            &&& close_to(
                r.value(),
                ned.x.value() * a.value() + ned.y.value() * b.value() + ned.z.value() * c.value(),
                power,
            )
        }),
{
    let r = a * ned.x + b * ned.y + c * ned.z;
    let (n, e, d) = (ned.x.value(), ned.y.value(), ned.z.value());
    let (x, y, z) = (a.value(), b.value(), c.value());
    lemma_three(a, ned.x, b, ned.y, c, ned.z, power);
    assert(x * n == n * x && y * e == e * y && z * d == d * z) by (nonlinear_arith);
    lemma_close(r, n * x + e * y + d * z, power);
}

/// The velocity along a body axis is what that axis sees of the velocity, but
/// for rounding.
pub proof fn the_body_velocity_is_what_the_axes_see(state: RigidBodyState, power: nat, axis: int)
    requires
        norm::near_unit(state.orientation.to_vec4()),
        inverse::at_most(state.velocity, power),
        100 <= power <= 1700,
        0 <= axis < 3,
    ensures
        ({
            let o = Binary64::one() as int;
            let v = state.velocity;
            let off = inverse::along(state.body_velocity(), axis) * (o * o) - newton::seen(
                state.orientation,
                v.x.value(),
                v.y.value(),
                v.z.value(),
                axis,
            );
            -(pow2(power) * (o * o)) <= 0x40000000 * off <= pow2(power) * (o * o)
        }),
{
    let o = Binary64::one() as int;
    let q = state.orientation;
    let v = state.velocity;
    let (x, y, z) = (v.x.value(), v.y.value(), v.z.value());
    cone::lemma_turn_of_length_one(q);
    lemma_pow2_strictly_increases(power, power + 2);
    track::lemma_itself(v.x, power + 2, 50);
    track::lemma_itself(v.y, power + 2, 50);
    track::lemma_itself(v.z, power + 2, 50);
    cone::lemma_turn(q.inverse(), v, x, y, z, 1, power + 2);
    newton::lemma_seen(q, x, y, z, 0);
    newton::lemma_seen(q, x, y, z, 1);
    newton::lemma_seen(q, x, y, z, 2);
    assert(o * (o * 1) == o * o);
    let felt = q.inverse().rotate(v);
    newton::lemma_felt(felt.x, newton::seen(q, x, y, z, 0), o * o, power);
    newton::lemma_felt(felt.y, newton::seen(q, x, y, z, 1), o * o, power);
    newton::lemma_felt(felt.z, newton::seen(q, x, y, z, 2), o * o, power);
}

/// A gust is added to the wind: what the wind gains is the gust, north, east and
/// down, along the axes of the place, but for rounding.
pub proof fn a_gust_adds_to_the_wind(
    turbulence: Turbulence,
    wind: DVec3,
    elapsed: Binary64,
    position: Geodetic,
    cos_latitude: Binary64,
    frame: LocalFrame,
    power: nat,
    axis: int,
)
    requires
        has_axes(frame),
        !turbulence.is_calm(),
        inverse::at_most(wind, power),
        inverse::at_most(turbulence.gust_spec(elapsed, position, cos_latitude), power),
        100 <= power <= 1600,
        0 <= axis < 3,
    ensures
        ({
            let o = Binary64::one() as int;
            let gust = turbulence.gust_spec(elapsed, position, cos_latitude);
            let gained = inverse::along(
                turbulence.wind_with_gust(wind, elapsed, position, cos_latitude, frame),
                axis,
            ) - inverse::along(wind, axis);
            let exact = gust.x.value() * inverse::along(frame.north, axis) + gust.y.value()
                * inverse::along(frame.east, axis) + gust.z.value() * inverse::along(
                frame.down,
                axis,
            );
            -(pow2(power) * o) <= 0x10000000000 * (gained * o - exact) <= pow2(power) * o
        }),
{
    let gust = turbulence.gust_spec(elapsed, position, cos_latitude);
    lemma_part(frame.north.x, frame.east.x, frame.down.x, gust, power);
    lemma_part(frame.north.y, frame.east.y, frame.down.y, gust, power);
    lemma_part(frame.north.z, frame.east.z, frame.down.z, gust, power);
    let g = frame.ned_to_ecef(gust);
    lemma_gained(wind.x, g.x, power);
    lemma_gained(wind.y, g.y, power);
    lemma_gained(wind.z, g.z, power);
    lemma_gain_kept(
        (wind.x + g.x).value() - wind.x.value(),
        g.x.value(),
        gust.x.value() * frame.north.x.value() + gust.y.value() * frame.east.x.value()
            + gust.z.value() * frame.down.x.value(),
        power,
    );
    lemma_gain_kept(
        (wind.y + g.y).value() - wind.y.value(),
        g.y.value(),
        gust.x.value() * frame.north.y.value() + gust.y.value() * frame.east.y.value()
            + gust.z.value() * frame.down.y.value(),
        power,
    );
    lemma_gain_kept(
        (wind.z + g.z).value() - wind.z.value(),
        g.z.value(),
        gust.x.value() * frame.north.z.value() + gust.y.value() * frame.east.z.value()
            + gust.z.value() * frame.down.z.value(),
        power,
    );
}

/// What a sum gains over its first part.
proof fn lemma_gained(a: Binary64, b: Binary64, power: nat)
    requires
        a.is_finite() && number::magnitude_of(a.value()) <= pow2(power),
        b.is_finite() && number::magnitude_of(b.value()) <= pow2(power + 6),
        100 <= power <= 1600,
    ensures
        -pow2(power) <= 0x80000000000 * ((a + b).value() - a.value() - b.value()) <= pow2(power),
{
    lemma_pow2_strictly_increases(power, power + 6);
    track::lemma_itself(a, power + 6, 51);
    track::lemma_itself(b, power + 6, 51);
    track::lemma_plus(a, b, a.value(), b.value(), 1, power + 6, 51);
    lemma_pow2_adds(power, 8);
    lemma2_to64();
    lemma2_to64_rest();
}

proof fn lemma_gain_kept(gained: int, gust: int, exact: int, power: nat)
    requires
        -pow2(power) <= 0x80000000000 * (gained - gust) <= pow2(power),
        close_to(gust, exact, power),
    ensures
        ({
            let o = Binary64::one() as int;
            -(pow2(power) * o) <= 0x10000000000 * (gained * o - exact) <= pow2(power) * o
        }),
{
    let o = Binary64::one() as int;
    let p = pow2(power) as int;
    let d = gained - gust;
    lemma_pow2_pos(1074);
    assert(gained * o == gust * o + d * o) by (nonlinear_arith)
        requires
            d == gained - gust,
    ;
    let big = 0x80000000000int;
    assert(-(p * o) <= big * (d * o) <= p * o) by (nonlinear_arith)
        requires
            -p <= big * d <= p,
            o > 0,
    ;
    assert(p * o >= 0) by (nonlinear_arith)
        requires
            p >= 0,
            o > 0,
    ;
}

} // verus!
