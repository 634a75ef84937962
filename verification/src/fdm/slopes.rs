//! What the stick, the pedals, the flaps and the air do to the coefficients.
use crate::angle::SinCos;
use crate::binary64;
use crate::binary64::Binary64;
use crate::fdm::aero;
use crate::fdm::aero::{AeroAngles, AeroCoefficientSet, Surfaces};
use crate::fdm::aircraft::{AeroCoefficients, Geometry};
use crate::fold;
use crate::near;
use crate::render::facing;
use crate::sign;
use crate::vector::DVec3;
use vstd::arithmetic::power2::*;
use vstd::prelude::*;

verus! {

/// Derivatives as an aircraft has them, and far beyond.
pub open spec fn has_slopes(a: AeroCoefficients) -> bool {
    &&& near::sized(a.lift_zero, 256)
    &&& near::sized(a.lift_alpha, 256)
    &&& near::sized(a.lift_flaps, 256)
    &&& near::sized(a.side_beta, 256)
    &&& near::sized(a.side_rudder, 256)
    &&& near::sized(a.roll_beta, 256)
    &&& near::sized(a.roll_rate_p, 256)
    &&& near::sized(a.roll_rate_r, 256)
    &&& near::sized(a.roll_aileron, 256)
    &&& near::sized(a.roll_rudder, 256)
    &&& near::sized(a.pitch_zero, 256)
    &&& near::sized(a.pitch_alpha, 256)
    &&& near::sized(a.pitch_rate_q, 256)
    &&& near::sized(a.pitch_elevator, 256)
    &&& near::sized(a.pitch_flaps, 256)
    &&& near::sized(a.yaw_beta, 256)
    &&& near::sized(a.yaw_rate_p, 256)
    &&& near::sized(a.yaw_rate_r, 256)
    &&& near::sized(a.yaw_aileron, 256)
    &&& near::sized(a.yaw_rudder, 256)
}

/// All that the coefficients of a moment depend on: the angles, the rates
/// without units and the surfaces.
#[verifier::ext_equal]
pub struct Flow {
    pub alpha: Binary64,
    pub beta: Binary64,
    pub roll: Binary64,
    pub pitch: Binary64,
    pub yaw: Binary64,
    pub surfaces: Surfaces,
}

/// The flow of a call for coefficients.
pub open spec fn flow_of(
    geometry: Geometry,
    angles: AeroAngles,
    angular_velocity: DVec3,
    surfaces: Surfaces,
) -> Flow {
    let rates = aero::normalised_rates(geometry, angles.true_airspeed, angular_velocity);
    Flow {
        alpha: angles.angle_of_attack,
        beta: angles.sideslip,
        roll: rates.roll,
        pitch: rates.pitch,
        yaw: rates.yaw,
        surfaces,
    }
}

/// A flow of ordinary size.
pub open spec fn is_flow(f: Flow) -> bool {
    &&& near::sized(f.alpha, 256)
    &&& near::sized(f.beta, 256)
    &&& near::sized(f.roll, 256)
    &&& near::sized(f.pitch, 256)
    &&& near::sized(f.yaw, 256)
    &&& near::sized(f.surfaces.aileron, 256)
    &&& near::sized(f.surfaces.elevator, 256)
    &&& near::sized(f.surfaces.rudder, 256)
    &&& near::sized(f.surfaces.flaps, 256)
}

/// A derivative times what its variable has changed by, in counts.
pub open spec fn change(slope: Binary64, before: Binary64, after: Binary64) -> int {
    slope.value() * (after.value() - before.value())
}

/// A coefficient has changed by so much, but for rounding: one part in a
/// hundred million.
pub open spec fn changed_by(before: Binary64, after: Binary64, change: int) -> bool {
    let o = Binary64::one();
    near::within((after.value() - before.value()) * o, change, 0x20 * (near::grain() * o))
}

/// A sum that follows an exact count, so many grains off at most.
spec fn follows(x: Binary64, exact: int, m: int, grains: int) -> bool {
    let o = Binary64::one();
    &&& near::sized(x, m)
    &&& near::within(x.value() * o, exact, (grains * (near::grain() * o)) as nat)
}

/// One more term of a sum.
proof fn lemma_term(acc: Binary64, exact: int, c: Binary64, x: Binary64, m: int, grains: int)
    requires
        follows(acc, exact, m, grains),
        near::sized(c, 256),
        near::sized(x, 256),
        0 <= m <= 0x60000,
        0 <= grains <= 100,
    ensures
        follows(acc + c * x, exact + c.value() * x.value(), m + 0x10002, grains + 2),
{
    let o = Binary64::one() as int;
    let g = near::grain() as int;
    near::lemma_grain();
    near::lemma_small_product(c, x, 256, 256);
    near::lemma_small_sum(acc, c * x, m, 0x10001);
    let (a, p, s) = (acc.value(), (c * x).value(), (acc + c * x).value());
    lemma_together(a, p, s, exact, c.value() * x.value(), grains, g, o);
}

proof fn lemma_together(a: int, p: int, s: int, e: int, cx: int, k: int, g: int, o: int)
    requires
        o > 0,
        g > 0,
        k >= 0,
        -(k * (g * o)) <= a * o - e <= k * (g * o),
        -(g * o) <= p * o - cx <= g * o,
        -g <= s - (a + p) <= g,
    ensures
        -((k + 2) * (g * o)) <= s * o - (e + cx) <= (k + 2) * (g * o),
        (k + 2) * (g * o) >= 0,
{
    let d = s - (a + p);
    let t = g * o;
    assert(-t <= d * o <= t) by (nonlinear_arith)
        requires
            -g <= d <= g,
            t == g * o,
            o > 0,
    ;
    assert(s * o == a * o + p * o + d * o) by (nonlinear_arith)
        requires
            d == s - (a + p),
    ;
    assert((k + 2) * t == k * t + 2 * t) by (nonlinear_arith);
    assert(t > 0) by (nonlinear_arith)
        requires
            t == g * o,
            g > 0,
            o > 0,
    ;
    assert((k + 2) * t >= 0) by (nonlinear_arith)
        requires
            k >= 0,
            t > 0,
    ;
}

/// A number follows itself.
proof fn lemma_first(c: Binary64)
    requires
        near::sized(c, 256),
    ensures
        follows(c, c.value() * Binary64::one(), 256, 0),
{
    near::lemma_grain();
}

/// A product follows itself.
proof fn lemma_first_term(c: Binary64, x: Binary64)
    requires
        near::sized(c, 256),
        near::sized(x, 256),
    ensures
        follows(c * x, c.value() * x.value(), 0x10001, 1),
{
    near::lemma_grain();
    near::lemma_small_product(c, x, 256, 256);
}

/// The difference of two sums.
proof fn lemma_moved(x: Binary64, y: Binary64, e: int, f: int, m: int, n: int)
    requires
        follows(x, e, m, 12),
        follows(y, f, n, 12),
    ensures
        changed_by(x, y, f - e),
{
    let o = Binary64::one() as int;
    let (a, b) = (x.value(), y.value());
    near::lemma_grain();
    assert((b - a) * o == b * o - a * o) by (nonlinear_arith);
    let t = near::grain() as int * o;
    assert(t >= 0) by (nonlinear_arith)
        requires
            t == near::grain() as int * o,
            o > 0,
    ;
}

/// Fewer grains off is no more grains off.
proof fn lemma_looser(x: Binary64, e: int, m: int, grains: int)
    requires
        follows(x, e, m, grains),
        0 <= grains <= 12,
    ensures
        follows(x, e, m, 12),
{
    let t = near::grain() as int * Binary64::one() as int;
    near::lemma_grain();
    assert(0 <= grains * t <= 12 * t) by (nonlinear_arith)
        requires
            0 <= grains <= 12,
            t == near::grain() as int * Binary64::one() as int,
            near::grain() > 0,
            Binary64::one() > 0,
    ;
}

proof fn lemma_apart(c: int, x: int, y: int)
    ensures
        c * (y - x) == c * y - c * x,
{
    assert(c * (y - x) == c * y - c * x) by (nonlinear_arith);
}

/// The sums that the coefficients about the three axes and the side force are.
proof fn lemma_sums(a: AeroCoefficients, f: Flow, set: AeroCoefficientSet)
    requires
        has_slopes(a),
        is_flow(f),
        set.side == a.side_beta * f.beta + a.side_rudder * f.surfaces.rudder,
        set.roll == a.roll_beta * f.beta + a.roll_rate_p * f.roll + a.roll_rate_r * f.yaw
            + a.roll_aileron * f.surfaces.aileron + a.roll_rudder * f.surfaces.rudder,
        set.pitch == a.pitch_zero + a.pitch_alpha * f.alpha + a.pitch_rate_q * f.pitch
            + a.pitch_elevator * f.surfaces.elevator + a.pitch_flaps * f.surfaces.flaps,
        set.yaw == a.yaw_beta * f.beta + a.yaw_rate_p * f.roll + a.yaw_rate_r * f.yaw
            + a.yaw_aileron * f.surfaces.aileron + a.yaw_rudder * f.surfaces.rudder,
    ensures
        ({
            let s = f.surfaces;
            let o = Binary64::one();
            &&& follows(
                set.side,
                a.side_beta.value() * f.beta.value() + a.side_rudder.value() * s.rudder.value(),
                0x20003,
                12,
            )
            &&& follows(
                set.roll,
                a.roll_beta.value() * f.beta.value() + a.roll_rate_p.value() * f.roll.value()
                    + a.roll_rate_r.value() * f.yaw.value() + a.roll_aileron.value()
                    * s.aileron.value() + a.roll_rudder.value() * s.rudder.value(),
                0x50009,
                12,
            )
            &&& follows(
                set.pitch,
                a.pitch_zero.value() * o + a.pitch_alpha.value() * f.alpha.value()
                    + a.pitch_rate_q.value() * f.pitch.value() + a.pitch_elevator.value()
                    * s.elevator.value() + a.pitch_flaps.value() * s.flaps.value(),
                0x40108,
                12,
            )
            &&& follows(
                set.yaw,
                a.yaw_beta.value() * f.beta.value() + a.yaw_rate_p.value() * f.roll.value()
                    + a.yaw_rate_r.value() * f.yaw.value() + a.yaw_aileron.value()
                    * s.aileron.value() + a.yaw_rudder.value() * s.rudder.value(),
                0x50009,
                12,
            )
        }),
{
    let s = f.surfaces;
    lemma_first_term(a.side_beta, f.beta);
    let e = a.side_beta.value() * f.beta.value();
    lemma_term(a.side_beta * f.beta, e, a.side_rudder, s.rudder, 0x10001, 1);
    lemma_looser(set.side, e + a.side_rudder.value() * s.rudder.value(), 0x20003, 3);
    lemma_five(a.roll_beta, f.beta, a.roll_rate_p, f.roll, a.roll_rate_r, f.yaw, a.roll_aileron, s.aileron, a.roll_rudder, s.rudder);
    lemma_five(a.yaw_beta, f.beta, a.yaw_rate_p, f.roll, a.yaw_rate_r, f.yaw, a.yaw_aileron, s.aileron, a.yaw_rudder, s.rudder);
    lemma_first(a.pitch_zero);
    let e0 = a.pitch_zero.value() * Binary64::one();
    lemma_term(a.pitch_zero, e0, a.pitch_alpha, f.alpha, 256, 0);
    let (x1, e1) = (a.pitch_zero + a.pitch_alpha * f.alpha, e0 + a.pitch_alpha.value() * f.alpha.value());
    lemma_term(x1, e1, a.pitch_rate_q, f.pitch, 0x10102, 2);
    let (x2, e2) = (x1 + a.pitch_rate_q * f.pitch, e1 + a.pitch_rate_q.value() * f.pitch.value());
    lemma_term(x2, e2, a.pitch_elevator, s.elevator, 0x20104, 4);
    let (x3, e3) = (
        x2 + a.pitch_elevator * s.elevator,
        e2 + a.pitch_elevator.value() * s.elevator.value(),
    );
    lemma_term(x3, e3, a.pitch_flaps, s.flaps, 0x30106, 6);
    lemma_looser(set.pitch, e3 + a.pitch_flaps.value() * s.flaps.value(), 0x40108, 8);
}

/// A sum of five products.
proof fn lemma_five(
    c0: Binary64,
    x0: Binary64,
    c1: Binary64,
    x1: Binary64,
    c2: Binary64,
    x2: Binary64,
    c3: Binary64,
    x3: Binary64,
    c4: Binary64,
    x4: Binary64,
)
    requires
        near::sized(c0, 256) && near::sized(x0, 256),
        near::sized(c1, 256) && near::sized(x1, 256),
        near::sized(c2, 256) && near::sized(x2, 256),
        near::sized(c3, 256) && near::sized(x3, 256),
        near::sized(c4, 256) && near::sized(x4, 256),
    ensures
        follows(
            c0 * x0 + c1 * x1 + c2 * x2 + c3 * x3 + c4 * x4,
            c0.value() * x0.value() + c1.value() * x1.value() + c2.value() * x2.value() + c3.value()
                * x3.value() + c4.value() * x4.value(),
            0x50009,
            12,
        ),
{
    lemma_first_term(c0, x0);
    let (a0, e0) = (c0 * x0, c0.value() * x0.value());
    lemma_term(a0, e0, c1, x1, 0x10001, 1);
    let (a1, e1) = (a0 + c1 * x1, e0 + c1.value() * x1.value());
    lemma_term(a1, e1, c2, x2, 0x20003, 3);
    let (a2, e2) = (a1 + c2 * x2, e1 + c2.value() * x2.value());
    lemma_term(a2, e2, c3, x3, 0x30005, 5);
    let (a3, e3) = (a2 + c3 * x3, e2 + c3.value() * x3.value());
    lemma_term(a3, e3, c4, x4, 0x40007, 7);
    lemma_looser(a3 + c4 * x4, e3 + c4.value() * x4.value(), 0x50009, 9);
}

/// Between any two flows the side force and the moments change by what their
/// derivatives say, each times the change of its own variable: the ailerons
/// roll, the elevator pitches, the rudder yaws, flaps trim, rates damp and the
/// angles of the air turn the aircraft by `roll_aileron`, `pitch_elevator` and so
/// on, and by nothing else.
pub proof fn moments_follow_their_derivatives(
    a: AeroCoefficients,
    geometry: Geometry,
    angles: AeroAngles,
    attack: SinCos,
    sigma: Binary64,
    angular_velocity: DVec3,
    surfaces: Surfaces,
    later_angles: AeroAngles,
    later_attack: SinCos,
    later_sigma: Binary64,
    later_velocity: DVec3,
    later_surfaces: Surfaces,
)
    requires
        has_slopes(a),
        is_flow(flow_of(geometry, angles, angular_velocity, surfaces)),
        is_flow(flow_of(geometry, later_angles, later_velocity, later_surfaces)),
    ensures
        ({
            let f = flow_of(geometry, angles, angular_velocity, surfaces);
            let g = flow_of(geometry, later_angles, later_velocity, later_surfaces);
            let c = aero::coefficients(a, geometry, angles, attack, sigma, angular_velocity, surfaces);
            let d = aero::coefficients(
                a,
                geometry,
                later_angles,
                later_attack,
                later_sigma,
                later_velocity,
                later_surfaces,
            );
            let (s, t) = (surfaces, later_surfaces);
            &&& changed_by(
                c.side,
                d.side,
                change(a.side_beta, f.beta, g.beta) + change(a.side_rudder, s.rudder, t.rudder),
            )
            &&& changed_by(
                c.roll,
                d.roll,
                change(a.roll_beta, f.beta, g.beta) + change(a.roll_rate_p, f.roll, g.roll)
                    + change(a.roll_rate_r, f.yaw, g.yaw) + change(
                    a.roll_aileron,
                    s.aileron,
                    t.aileron,
                ) + change(a.roll_rudder, s.rudder, t.rudder),
            )
            &&& changed_by(
                c.pitch,
                d.pitch,
                change(a.pitch_alpha, f.alpha, g.alpha) + change(a.pitch_rate_q, f.pitch, g.pitch)
                    + change(a.pitch_elevator, s.elevator, t.elevator) + change(
                    a.pitch_flaps,
                    s.flaps,
                    t.flaps,
                ),
            )
            &&& changed_by(
                c.yaw,
                d.yaw,
                change(a.yaw_beta, f.beta, g.beta) + change(a.yaw_rate_p, f.roll, g.roll) + change(
                    a.yaw_rate_r,
                    f.yaw,
                    g.yaw,
                ) + change(a.yaw_aileron, s.aileron, t.aileron) + change(
                    a.yaw_rudder,
                    s.rudder,
                    t.rudder,
                ),
            )
        }),
{
    let f = flow_of(geometry, angles, angular_velocity, surfaces);
    let g = flow_of(geometry, later_angles, later_velocity, later_surfaces);
    let c = aero::coefficients(a, geometry, angles, attack, sigma, angular_velocity, surfaces);
    let d = aero::coefficients(
        a,
        geometry,
        later_angles,
        later_attack,
        later_sigma,
        later_velocity,
        later_surfaces,
    );
    let (s, t) = (surfaces, later_surfaces);
    lemma_sums(a, f, c);
    lemma_sums(a, g, d);
    lemma_apart(a.side_beta.value(), f.beta.value(), g.beta.value());
    lemma_apart(a.side_rudder.value(), s.rudder.value(), t.rudder.value());
    lemma_apart(a.roll_beta.value(), f.beta.value(), g.beta.value());
    lemma_apart(a.roll_rate_p.value(), f.roll.value(), g.roll.value());
    lemma_apart(a.roll_rate_r.value(), f.yaw.value(), g.yaw.value());
    lemma_apart(a.roll_aileron.value(), s.aileron.value(), t.aileron.value());
    lemma_apart(a.roll_rudder.value(), s.rudder.value(), t.rudder.value());
    lemma_apart(a.pitch_alpha.value(), f.alpha.value(), g.alpha.value());
    lemma_apart(a.pitch_rate_q.value(), f.pitch.value(), g.pitch.value());
    lemma_apart(a.pitch_elevator.value(), s.elevator.value(), t.elevator.value());
    lemma_apart(a.pitch_flaps.value(), s.flaps.value(), t.flaps.value());
    lemma_apart(a.yaw_beta.value(), f.beta.value(), g.beta.value());
    lemma_apart(a.yaw_rate_p.value(), f.roll.value(), g.roll.value());
    lemma_apart(a.yaw_rate_r.value(), f.yaw.value(), g.yaw.value());
    lemma_apart(a.yaw_aileron.value(), s.aileron.value(), t.aileron.value());
    lemma_apart(a.yaw_rudder.value(), s.rudder.value(), t.rudder.value());
    let side = |f: Flow| a.side_beta.value() * f.beta.value() + a.side_rudder.value()
        * f.surfaces.rudder.value();
    let roll = |f: Flow| a.roll_beta.value() * f.beta.value() + a.roll_rate_p.value()
        * f.roll.value() + a.roll_rate_r.value() * f.yaw.value() + a.roll_aileron.value()
        * f.surfaces.aileron.value() + a.roll_rudder.value() * f.surfaces.rudder.value();
    let pitch = |f: Flow| a.pitch_zero.value() * Binary64::one() + a.pitch_alpha.value()
        * f.alpha.value() + a.pitch_rate_q.value() * f.pitch.value() + a.pitch_elevator.value()
        * f.surfaces.elevator.value() + a.pitch_flaps.value() * f.surfaces.flaps.value();
    let yaw = |f: Flow| a.yaw_beta.value() * f.beta.value() + a.yaw_rate_p.value()
        * f.roll.value() + a.yaw_rate_r.value() * f.yaw.value() + a.yaw_aileron.value()
        * f.surfaces.aileron.value() + a.yaw_rudder.value() * f.surfaces.rudder.value();
    lemma_moved(c.side, d.side, side(f), side(g), 0x20003, 0x20003);
    lemma_moved(c.roll, d.roll, roll(f), roll(g), 0x50009, 0x50009);
    lemma_moved(c.pitch, d.pitch, pitch(f), pitch(g), 0x40108, 0x40108);
    lemma_moved(c.yaw, d.yaw, yaw(f), yaw(g), 0x50009, 0x50009);
}

/// A blend of none of the second is the first.
proof fn lemma_none_of_it(sigma: Binary64, first: Binary64, second: Binary64)
    requires
        sigma.is_finite(),
        sigma.value() == 0,
        first.is_finite(),
        second.is_finite(),
    ensures
        ({
            let r = (Binary64::of(1) - sigma) * first + sigma * second;
            r.is_finite() && r.value() == first.value()
        }),
{
    let one = Binary64::of(1);
    binary64::lemma_of(1);
    binary64::lemma_negate(sigma);
    assert(one - sigma == one + sigma.negate());
    binary64::lemma_sum_between(one, sigma.negate(), one, one);
    let rest = one - sigma;
    assert(first.value() * Binary64::one() == rest.value() * first.value()) by (nonlinear_arith)
        requires
            rest.value() == Binary64::one(),
    ;
    binary64::lemma_product_between(rest, first, first, first);
    binary64::lemma_zero_factor(sigma, second);
    binary64::lemma_sum_between(rest * first, sigma * second, first, first);
}

/// A blend of all of the second is the second.
proof fn lemma_all_of_it(sigma: Binary64, first: Binary64, second: Binary64)
    requires
        sigma.is_finite(),
        sigma.value() == Binary64::one(),
        first.is_finite(),
        second.is_finite(),
    ensures
        ({
            let r = (Binary64::of(1) - sigma) * first + sigma * second;
            r.is_finite() && r.value() == second.value()
        }),
{
    let (zero, one) = (Binary64::of(0), Binary64::of(1));
    binary64::lemma_of(0);
    binary64::lemma_of(1);
    binary64::lemma_negate(sigma);
    assert(one - sigma == one + sigma.negate());
    binary64::lemma_sum_between(one, sigma.negate(), zero, zero);
    let rest = one - sigma;
    binary64::lemma_zero_factor(rest, first);
    assert(second.value() * Binary64::one() == sigma.value() * second.value()) by (nonlinear_arith)
        requires
            sigma.value() == Binary64::one(),
    ;
    binary64::lemma_product_between(sigma, second, second, second);
    binary64::lemma_sum_between(rest * first, sigma * second, second, second);
}

/// The straight curve is made of ordinary numbers.
proof fn lemma_straight(a: AeroCoefficients, alpha: Binary64, flaps: Binary64)
    requires
        has_slopes(a),
        near::sized(alpha, 256),
        near::sized(flaps, 256),
    ensures
        follows(
            aero::straight_lift(a, alpha, flaps),
            a.lift_zero.value() * Binary64::one() + a.lift_alpha.value() * alpha.value()
                + a.lift_flaps.value() * flaps.value(),
            0x20104,
            12,
        ),
{
    lemma_first(a.lift_zero);
    let e0 = a.lift_zero.value() * Binary64::one();
    lemma_term(a.lift_zero, e0, a.lift_alpha, alpha, 256, 0);
    let (x1, e1) = (a.lift_zero + a.lift_alpha * alpha, e0 + a.lift_alpha.value() * alpha.value());
    lemma_term(x1, e1, a.lift_flaps, flaps, 0x10102, 2);
    lemma_looser(x1 + a.lift_flaps * flaps, e1 + a.lift_flaps.value() * flaps.value(), 0x20104, 4);
}

/// The flat plate is made of ordinary numbers: across the air it holds as much
/// as along it, but for the cosine and the sign of the angle.
pub proof fn a_flat_plate_lifts_the_way_it_is_turned(alpha: Binary64, attack: SinCos)
    requires
        alpha.is_finite(),
        near::sized(attack.sin, 1),
        near::sized(attack.cos, 1),
    ensures
        ({
            let o = Binary64::one() as int;
            let g = near::grain();
            let (lift, drag) = (aero::plate_lift(alpha, attack), aero::plate_drag(attack));
            let turned = drag.value() * attack.cos.value();
            let sine = attack.sin.value();
            &&& near::sized(lift, 8)
            &&& near::sized(drag, 8)
            &&& near::within(drag.value() * o, 2 * (sine * sine), 2 * (g * (o as nat)))
            &&& alpha.value() > 0 ==> near::within(lift.value() * o, turned, 8 * (g * (o as nat)))
            &&& alpha.value() < 0 ==> near::within(lift.value() * o, -turned, 8 * (g * (o as nat)))
        }),
{
    let o = Binary64::one() as int;
    let g = near::grain() as int;
    let (s, c) = (attack.sin, attack.cos);
    let two = Binary64::of(2);
    near::lemma_grain();
    near::lemma_small_of(2, 2);
    binary64::lemma_of(1);
    binary64::lemma_order(alpha, alpha);
    binary64::lemma_signum(alpha);
    let sign = alpha.signum();
    assert(near::sized(sign, 1));
    near::lemma_small_product(two, sign, 2, 1);
    let t0 = two * sign;
    near::lemma_small_product(two, s, 2, 1);
    near::lemma_small_product(two * s, s, 3, 1);
    lemma_double_sign(two, sign);
    near::lemma_small_product(t0, s, 3, 1);
    near::lemma_small_product(t0 * s, s, 4, 1);
    near::lemma_small_product(t0 * s * s, c, 5, 1);
    near::lemma_larger(two * s * s, 4, 8);
    near::lemma_larger(t0 * s * s * c, 6, 8);
    let (sv, cv) = (s.value(), c.value());
    let d1 = (two * s).value();
    let d2 = (two * s * s).value();
    lemma_plate(d1, d2, sv, o, g);
    let l1 = (t0 * s).value();
    let l2 = (t0 * s * s).value();
    let l3 = (t0 * s * s * c).value();
    let k = t0.value();
    if alpha.value() > 0 {
        lemma_plate_lift(d1, d2, l1, l2, l3, sv, cv, o, g, 1);
    }
    if alpha.value() < 0 {
        lemma_plate_lift(d1, d2, l1, l2, l3, sv, cv, o, g, -1);
    }
}

/// Twice a sign.
proof fn lemma_double_sign(two: Binary64, sign: Binary64)
    requires
        two == Binary64::of(2),
        sign.is_finite(),
        sign.value() == Binary64::one() || sign.value() == -Binary64::one(),
    ensures
        (two * sign).value() == 2 * sign.value(),
        sign.value() == Binary64::one() ==> (two * sign).value() == 2 * Binary64::one(),
{
    let o = Binary64::one() as int;
    binary64::lemma_of(2);
    binary64::lemma_negate(two);
    let v = two.value() * sign.value();
    if sign.value() == o {
        assert(v == two.value() * o);
        binary64::lemma_product_between(two, sign, two, two);
    } else {
        assert(v == two.negate().value() * o) by (nonlinear_arith)
            requires
                v == two.value() * sign.value(),
                sign.value() == -o,
                two.negate().value() == -two.value(),
        ;
        binary64::lemma_product_between(two, sign, two.negate(), two.negate());
    }
}

proof fn lemma_plate(d1: int, d2: int, s: int, o: int, g: int)
    requires
        o > 0,
        g > 0,
        -o <= s <= o,
        -(g * o) <= d1 * o - (2 * o) * s <= g * o,
        -(g * o) <= d2 * o - d1 * s <= g * o,
    ensures
        -(2 * (g * o)) <= d2 * o - 2 * (s * s) <= 2 * (g * o),
        -g <= d1 - 2 * s <= g,
{
    let e = d1 - 2 * s;
    assert(e * o == d1 * o - (2 * o) * s) by (nonlinear_arith)
        requires
            e == d1 - 2 * s,
    ;
    assert(-g <= e <= g) by (nonlinear_arith)
        requires
            -(g * o) <= e * o <= g * o,
            o > 0,
    ;
    assert(d1 * s == 2 * (s * s) + e * s) by (nonlinear_arith)
        requires
            e == d1 - 2 * s,
    ;
    assert(-(g * o) <= e * s <= g * o) by (nonlinear_arith)
        requires
            -g <= e <= g,
            -o <= s <= o,
    ;
}

proof fn lemma_plate_lift(
    d1: int,
    d2: int,
    l1: int,
    l2: int,
    l3: int,
    s: int,
    c: int,
    o: int,
    g: int,
    k: int,
)
    requires
        o > 0,
        g > 0,
        o == 0x100000000 * g,
        k == 1 || k == -1,
        -o <= s <= o,
        -o <= c <= o,
        -g <= d1 - 2 * s <= g,
        -(g * o) <= d2 * o - d1 * s <= g * o,
        -(g * o) <= l1 * o - (2 * (k * o)) * s <= g * o,
        -(g * o) <= l2 * o - l1 * s <= g * o,
        -(g * o) <= l3 * o - l2 * c <= g * o,
    ensures
        -(8 * (g * o)) <= l3 * o - k * (d2 * c) <= 8 * (g * o),
{
    let e = l1 - 2 * (k * s);
    assert(e * o == l1 * o - (2 * (k * o)) * s) by (nonlinear_arith)
        requires
            e == l1 - 2 * (k * s),
    ;
    assert(-g <= e <= g) by (nonlinear_arith)
        requires
            -(g * o) <= e * o <= g * o,
            o > 0,
    ;
    let f = l1 - k * d1;
    if k == 1 {
        assert(k * s == s && k * d1 == d1);
    } else {
        assert(k * s == -s && k * d1 == -d1) by (nonlinear_arith)
            requires
                k == -1,
        ;
    }
    assert(-(2 * g) <= f <= 2 * g);
    assert(l1 * s == k * (d1 * s) + f * s) by (nonlinear_arith)
        requires
            f == l1 - k * d1,
    ;
    assert(-(2 * (g * o)) <= f * s <= 2 * (g * o)) by (nonlinear_arith)
        requires
            -(2 * g) <= f <= 2 * g,
            -o <= s <= o,
    ;
    let h = l2 - k * d2;
    assert(h * o == l2 * o - k * (d2 * o)) by (nonlinear_arith)
        requires
            h == l2 - k * d2,
    ;
    assert(-(4 * (g * o)) <= h * o <= 4 * (g * o));
    assert(-(4 * g) <= h <= 4 * g) by (nonlinear_arith)
        requires
            -(4 * (g * o)) <= h * o <= 4 * (g * o),
            o > 0,
    ;
    assert(l2 * c == k * (d2 * c) + h * c) by (nonlinear_arith)
        requires
            h == l2 - k * d2,
    ;
    assert(-(4 * (g * o)) <= h * c <= 4 * (g * o)) by (nonlinear_arith)
        requires
            -(4 * g) <= h <= 4 * g,
            -o <= c <= o,
    ;
}

/// Below the stall the lift follows the angle of attack by `lift_alpha` and the
/// flaps by `lift_flaps`, from `lift_zero` where both are none.
pub proof fn below_the_stall_lift_follows_angle_and_flaps(
    a: AeroCoefficients,
    geometry: Geometry,
    angles: AeroAngles,
    attack: SinCos,
    angular_velocity: DVec3,
    surfaces: Surfaces,
    later_angles: AeroAngles,
    later_attack: SinCos,
    later_velocity: DVec3,
    later_surfaces: Surfaces,
    sigma: Binary64,
)
    requires
        has_slopes(a),
        near::sized(angles.angle_of_attack, 256),
        near::sized(later_angles.angle_of_attack, 256),
        near::sized(surfaces.flaps, 256),
        near::sized(later_surfaces.flaps, 256),
        near::sized(attack.sin, 1) && near::sized(attack.cos, 1),
        near::sized(later_attack.sin, 1) && near::sized(later_attack.cos, 1),
        sigma.is_finite(),
        sigma.value() == 0,
    ensures
        ({
            let c = aero::coefficients(a, geometry, angles, attack, sigma, angular_velocity, surfaces);
            let d = aero::coefficients(
                a,
                geometry,
                later_angles,
                later_attack,
                sigma,
                later_velocity,
                later_surfaces,
            );
            &&& changed_by(
                c.lift,
                d.lift,
                change(a.lift_alpha, angles.angle_of_attack, later_angles.angle_of_attack) + change(
                    a.lift_flaps,
                    surfaces.flaps,
                    later_surfaces.flaps,
                ),
            )
            &&& angles.angle_of_attack.value() == 0 && surfaces.flaps.value() == 0
                ==> c.lift.value() == a.lift_zero.value()
        }),
{
    let (p, q) = (angles.angle_of_attack, later_angles.angle_of_attack);
    let (s, t) = (surfaces.flaps, later_surfaces.flaps);
    let o = Binary64::one() as int;
    lemma_straight(a, p, s);
    lemma_straight(a, q, t);
    a_flat_plate_lifts_the_way_it_is_turned(p, attack);
    a_flat_plate_lifts_the_way_it_is_turned(q, later_attack);
    let (x, y) = (aero::straight_lift(a, p, s), aero::straight_lift(a, q, t));
    lemma_none_of_it(sigma, x, aero::plate_lift(p, attack));
    lemma_none_of_it(sigma, y, aero::plate_lift(q, later_attack));
    lemma_apart(a.lift_alpha.value(), p.value(), q.value());
    lemma_apart(a.lift_flaps.value(), s.value(), t.value());
    let line = |p: Binary64, s: Binary64| a.lift_zero.value() * o + a.lift_alpha.value()
        * p.value() + a.lift_flaps.value() * s.value();
    lemma_moved(x, y, line(p, s), line(q, t), 0x20104, 0x20104);
    if p.value() == 0 && s.value() == 0 {
        lemma_no_term(a.lift_zero, a.lift_alpha, p);
        lemma_no_term(a.lift_zero + a.lift_alpha * p, a.lift_flaps, s);
    }
}

/// A term of nothing adds nothing.
proof fn lemma_no_term(acc: Binary64, c: Binary64, x: Binary64)
    requires
        acc.is_finite(),
        c.is_finite(),
        x.is_finite(),
        x.value() == 0,
    ensures
        (acc + c * x).is_finite(),
        (acc + c * x).value() == acc.value(),
{
    let zero = Binary64::of(0);
    binary64::lemma_of(0);
    assert(c.value() * x.value() == 0) by (nonlinear_arith)
        requires
            x.value() == 0,
    ;
    assert(0 * Binary64::one() == 0);
    binary64::lemma_product_between(c, x, zero, zero);
    binary64::lemma_sum_between(acc, c * x, acc, acc);
}

/// Flaps that lift never take lift away when they are set further, below the
/// stall and through it: at the same angle of attack the lift coefficient is no
/// less.
pub proof fn setting_flaps_never_lowers_the_lift(
    a: AeroCoefficients,
    geometry: Geometry,
    angles: AeroAngles,
    attack: SinCos,
    sigma: Binary64,
    angular_velocity: DVec3,
    surfaces: Surfaces,
    further: Surfaces,
)
    requires
        has_slopes(a),
        near::sized(angles.angle_of_attack, 256),
        near::sized(surfaces.flaps, 256),
        near::sized(further.flaps, 256),
        near::sized(attack.sin, 1) && near::sized(attack.cos, 1),
        a.lift_flaps.value() >= 0,
        surfaces.flaps.value() <= further.flaps.value(),
        sigma.is_finite(),
        0 <= sigma.value() <= Binary64::one(),
    ensures
        aero::coefficients(a, geometry, angles, attack, sigma, angular_velocity, surfaces).lift.value()
            <= aero::coefficients(
            a,
            geometry,
            angles,
            attack,
            sigma,
            angular_velocity,
            further,
        ).lift.value(),
{
    let alpha = angles.angle_of_attack;
    let (s, t) = (surfaces.flaps, further.flaps);
    let (zero, one) = (Binary64::of(0), Binary64::of(1));
    lemma_straight(a, alpha, s);
    lemma_straight(a, alpha, t);
    a_flat_plate_lifts_the_way_it_is_turned(alpha, attack);
    let base = a.lift_zero + a.lift_alpha * alpha;
    lemma_first(a.lift_zero);
    lemma_term(a.lift_zero, a.lift_zero.value() * Binary64::one(), a.lift_alpha, alpha, 256, 0);
    near::lemma_small_product(a.lift_flaps, s, 256, 256);
    near::lemma_small_product(a.lift_flaps, t, 256, 256);
    near::lemma_product_grows(s, t, a.lift_flaps);
    lemma_added(a.lift_flaps * s, a.lift_flaps * t, base);
    binary64::lemma_of(0);
    binary64::lemma_of(1);
    binary64::lemma_negate(sigma);
    assert(one - sigma == one + sigma.negate());
    binary64::lemma_sum_between(one, sigma.negate(), zero, one);
    let rest = one - sigma;
    let (x, y) = (aero::straight_lift(a, alpha, s), aero::straight_lift(a, alpha, t));
    near::lemma_product_grows(x, y, rest);
    let plate = aero::plate_lift(alpha, attack);
    lemma_shared(rest, x);
    lemma_shared(rest, y);
    lemma_shared(sigma, plate);
    near::lemma_sum_grows(rest * x, rest * y, sigma * plate);
}

/// A share of a finite number is finite.
proof fn lemma_shared(share: Binary64, x: Binary64)
    requires
        share.is_finite(),
        0 <= share.value() <= Binary64::one(),
        x.is_finite(),
    ensures
        (share * x).is_finite(),
{
    let zero = Binary64::of(0);
    let o = Binary64::one() as int;
    binary64::lemma_of(0);
    let (s, v) = (share.value(), x.value());
    if v >= 0 {
        assert(0 * o <= s * v <= v * o) by (nonlinear_arith)
            requires
                0 <= s <= o,
                v >= 0,
        ;
        binary64::lemma_product_between(share, x, zero, x);
    } else {
        assert(v * o <= s * v <= 0 * o) by (nonlinear_arith)
            requires
                0 <= s <= o,
                v < 0,
        ;
        binary64::lemma_product_between(share, x, x, zero);
    }
}

/// The same, with more added, is no less.
proof fn lemma_added(a: Binary64, b: Binary64, c: Binary64)
    requires
        a.is_finite(),
        b.is_finite(),
        c.is_finite(),
        a.value() <= b.value(),
    ensures
        (c + a).value() <= (c + b).value(),
{
    binary64::lemma_add(c, a);
    binary64::lemma_add(c, b);
    binary64::lemma_round_monotone(c.value() + a.value(), c.value() + b.value(), 1);
}

/// Past the stall the wing is a flat plate, whatever flaps and angle would give
/// on the straight curve.
pub proof fn past_the_stall_the_wing_is_a_flat_plate(
    a: AeroCoefficients,
    geometry: Geometry,
    angles: AeroAngles,
    attack: SinCos,
    sigma: Binary64,
    angular_velocity: DVec3,
    surfaces: Surfaces,
)
    requires
        has_slopes(a),
        near::sized(angles.angle_of_attack, 256),
        near::sized(surfaces.flaps, 256),
        near::sized(attack.sin, 1) && near::sized(attack.cos, 1),
        sigma.is_finite(),
        sigma.value() == Binary64::one(),
        aero::straight_drag(
            a,
            geometry,
            aero::straight_lift(a, angles.angle_of_attack, surfaces.flaps),
            surfaces.flaps,
        ).is_finite(),
    ensures
        ({
            let c = aero::coefficients(a, geometry, angles, attack, sigma, angular_velocity, surfaces);
            &&& c.lift.value() == aero::plate_lift(angles.angle_of_attack, attack).value()
            &&& c.drag.value() == aero::plate_drag(attack).value()
        }),
{
    let alpha = angles.angle_of_attack;
    lemma_straight(a, alpha, surfaces.flaps);
    a_flat_plate_lifts_the_way_it_is_turned(alpha, attack);
    let lift = aero::straight_lift(a, alpha, surfaces.flaps);
    lemma_all_of_it(sigma, lift, aero::plate_lift(alpha, attack));
    lemma_all_of_it(
        sigma,
        aero::straight_drag(a, geometry, lift, surfaces.flaps),
        aero::plate_drag(attack),
    );
}

/// Below the stall the drag is that of the straight curve at the lift there.
pub proof fn below_the_stall_the_drag_goes_with_the_straight_lift(
    a: AeroCoefficients,
    geometry: Geometry,
    angles: AeroAngles,
    attack: SinCos,
    sigma: Binary64,
    angular_velocity: DVec3,
    surfaces: Surfaces,
)
    requires
        near::sized(attack.sin, 1) && near::sized(attack.cos, 1),
        near::sized(angles.angle_of_attack, 256),
        sigma.is_finite(),
        sigma.value() == 0,
        aero::straight_drag(
            a,
            geometry,
            aero::straight_lift(a, angles.angle_of_attack, surfaces.flaps),
            surfaces.flaps,
        ).is_finite(),
    ensures
        aero::coefficients(a, geometry, angles, attack, sigma, angular_velocity, surfaces).drag.value()
            == aero::straight_drag(
            a,
            geometry,
            aero::straight_lift(a, angles.angle_of_attack, surfaces.flaps),
            surfaces.flaps,
        ).value(),
{
    let alpha = angles.angle_of_attack;
    a_flat_plate_lifts_the_way_it_is_turned(alpha, attack);
    let lift = aero::straight_lift(a, alpha, surfaces.flaps);
    lemma_none_of_it(
        sigma,
        aero::straight_drag(a, geometry, lift, surfaces.flaps),
        aero::plate_drag(attack),
    );
}

/// A rate without units, and what it stands for.
spec fn is_rate(rate: Binary64, velocity: Binary64, length: Binary64, speed: int) -> bool {
    near::within(
        rate.value() * (2 * speed),
        velocity.value() * length.value(),
        (0x1010 * (near::grain() * (2 * speed))) as nat,
    )
}

proof fn lemma_rate(velocity: Binary64, length: Binary64, speed: Binary64)
    requires
        near::sized(velocity, 64),
        near::sized(length, 64),
        near::sized(speed, 0x10000),
        speed.value() >= Binary64::one(),
    ensures
        is_rate(
            velocity * length * (Binary64::of(1) / (Binary64::of(2) * speed)),
            velocity,
            length,
            speed.value(),
        ),
{
    let o = Binary64::one() as int;
    let g = near::grain() as int;
    let (one, two) = (Binary64::of(1), Binary64::of(2));
    near::lemma_grain();
    near::lemma_small_of(1, 1);
    near::lemma_small_of(2, 2);
    let v = speed.value();
    let twice = two * speed;
    lemma_twice(speed);
    near::lemma_small_quotient(one, twice, 1);
    near::lemma_small_quotient_near(one, twice, 1);
    let n = one / twice;
    near::lemma_small_product(velocity, length, 64, 64);
    near::lemma_small_product(velocity * length, n, 4097, 1);
    let (w, b) = (velocity.value() * length.value(), (velocity * length).value());
    let r = (velocity * length * n).value();
    facing::lemma_size(velocity.value(), length.value(), 64 * o, 64 * o);
    assert((64 * o) * (64 * o) == 4096 * (o * o)) by (nonlinear_arith);
    lemma_rate_counts(r, b, w, n.value(), 2 * v, o, g);
}

/// Twice a number that is not too large.
proof fn lemma_twice(x: Binary64)
    requires
        near::sized(x, 0x10000),
        x.value() >= 0,
    ensures
        (Binary64::of(2) * x).is_finite(),
        (Binary64::of(2) * x).value() == 2 * x.value(),
{
    let o = Binary64::one() as int;
    near::lemma_grain();
    lemma2_to64();
    lemma_pow2_strictly_increases(1095, 2098);
    lemma_pow2_adds(1074, 21);
    sign::lemma_product_commutes(Binary64::of(2), x);
    fold::lemma_times_power(x, 2, 1);
}

proof fn lemma_rate_counts(r: int, b: int, w: int, n: int, d: int, o: int, g: int)
    requires
        o > 0,
        g > 0,
        o == 0x100000000 * g,
        d >= o,
        0 <= n <= o,
        -(4096 * (o * o)) <= w <= 4096 * (o * o),
        -(g * o) <= b * o - w <= g * o,
        -(g * d) <= n * d - o * o <= g * d,
        -(g * o) <= r * o - b * n <= g * o,
    ensures
        -(0x1010 * (g * d)) <= r * d - w <= 0x1010 * (g * d),
{
    let (e1, e2, e3) = (r * o - b * n, n * d - o * o, b * o - w);
    let (oo, go, gd) = (o * o, g * o, g * d);
    assert(0 < go <= gd) by (nonlinear_arith)
        requires
            go == g * o,
            gd == g * d,
            0 < o <= d,
            g > 0,
    ;
    assert(oo == 0x100000000 * go) by (nonlinear_arith)
        requires
            oo == o * o,
            go == g * o,
            o == 0x100000000 * g,
    ;
    assert(-(4097 * o) <= b <= 4097 * o) by (nonlinear_arith)
        requires
            -(4097 * (o * o)) <= b * o <= 4097 * (o * o),
            o > 0,
    ;
    assert(-(gd * o) <= e1 * d <= gd * o) by (nonlinear_arith)
        requires
            -(g * o) <= e1 <= g * o,
            gd == g * d,
            d > 0,
    ;
    assert(-(4097 * (gd * o)) <= b * e2 <= 4097 * (gd * o)) by (nonlinear_arith)
        requires
            -(4097 * o) <= b <= 4097 * o,
            -gd <= e2 <= gd,
    {
        let m = 4097 * o;
        assert(-(m * gd) <= b * e2 <= m * gd) by (nonlinear_arith)
            requires
                -m <= b <= m,
                -gd <= e2 <= gd,
        ;
        assert(m * gd == 4097 * (gd * o)) by (nonlinear_arith)
            requires
                m == 4097 * o,
        ;
    }
    assert(-(gd * o) <= e3 * o <= gd * o) by (nonlinear_arith)
        requires
            -go <= e3 <= go,
            go <= gd,
            o > 0,
    ;
    let t = r * d - w;
    let (p, q, z, k, h) = (r * o, b * n, n * d, b * o, r * d);
    assert((p - q) * d == p * d - q * d) by (nonlinear_arith);
    assert((r * o) * d == (r * d) * o && (b * n) * d == b * (n * d)) by (nonlinear_arith);
    assert(b * (z - oo) == b * z - b * oo) by (nonlinear_arith);
    assert(b * (o * o) == (b * o) * o) by (nonlinear_arith);
    assert((k - w) * o == k * o - w * o) by (nonlinear_arith);
    assert((h - w) * o == h * o - w * o) by (nonlinear_arith);
    assert(t * o == e1 * d + b * e2 + e3 * o);
    assert(-(0x1010 * gd) <= t <= 0x1010 * gd) by (nonlinear_arith)
        requires
            -(0x1010 * (gd * o)) <= t * o <= 0x1010 * (gd * o),
            o > 0,
    ;
}

/// The rates go by what a wing sees of them: twice the airspeed times a rate
/// without units is the angular velocity times the span, about the axes ahead
/// and down, and times the chord about the axis to the right, but for rounding.
/// An airspeed below one counts as one.
pub proof fn rates_go_by_span_chord_and_airspeed(
    geometry: Geometry,
    true_airspeed: Binary64,
    angular_velocity: DVec3,
)
    requires
        near::sized(angular_velocity.x, 64),
        near::sized(angular_velocity.y, 64),
        near::sized(angular_velocity.z, 64),
        near::sized(geometry.wing_span, 64),
        near::sized(geometry.mean_chord, 64),
        near::sized(true_airspeed, 0x10000),
    ensures
        ({
            let r = aero::normalised_rates(geometry, true_airspeed, angular_velocity);
            let o = Binary64::one() as int;
            let v = true_airspeed.value();
            let speed = if v < o {
                o
            } else {
                v
            };
            let (w, span, chord) = (
                angular_velocity,
                geometry.wing_span.value(),
                geometry.mean_chord.value(),
            );
            let slack = 0x1010 * (near::grain() * (2 * speed));
            &&& -slack <= r.roll.value() * (2 * speed) - w.x.value() * span <= slack
            &&& -slack <= r.pitch.value() * (2 * speed) - w.y.value() * chord <= slack
            &&& -slack <= r.yaw.value() * (2 * speed) - w.z.value() * span <= slack
        }),
{
    let one = Binary64::of(1);
    near::lemma_grain();
    near::lemma_small_of(1, 0x10000);
    binary64::lemma_order(true_airspeed, one);
    binary64::lemma_order(one, true_airspeed);
    let speed = true_airspeed.max(one);
    let w = angular_velocity;
    lemma_rate(w.x, geometry.wing_span, speed);
    lemma_rate(w.y, geometry.mean_chord, speed);
    lemma_rate(w.z, geometry.wing_span, speed);
    let g = near::grain() as int;
    assert(g * (2 * speed.value()) >= 0) by (nonlinear_arith)
        requires
            g > 0,
            speed.value() > 0,
    ;
}

} // verus!
