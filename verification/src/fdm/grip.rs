//! What tyres hold with along and across, while they do not slip.
use crate::binary64;
use crate::binary64::Binary64;
use crate::fdm::aircraft::LandingGearConfig;
use crate::fdm::cone;
use crate::fdm::environment::Environment;
use crate::fdm::landing_gear;
use crate::fdm::landing_gear::Sliding;
use crate::fdm::state::{LocalFrame, RigidBodyState};
use crate::fdm::ways;
use crate::near;
use crate::norm;
use crate::vector::DVec3;
use vstd::arithmetic::power2::*;
use vstd::prelude::*;

verus! {

/// A part of a direction is at most two.
proof fn lemma_small_direction(v: DVec3)
    requires
        norm::near_unit(norm::flat(v)),
    ensures
        near::sized(v.x, 2),
        near::sized(v.y, 2),
        near::sized(v.z, 2),
{
    cone::lemma_direction(v);
    lemma_pow2_adds(1074, 1);
    lemma2_to64();
}

/// One part of the friction that grips ask for.
proof fn lemma_asked_part(f: Binary64, l: Binary64, k1: Binary64, k2: Binary64)
    requires
        near::sized(f, 2),
        near::sized(l, 2),
        near::sized(k1, 35),
        near::sized(k2, 35),
    ensures
        ({
            let o = Binary64::one() as int;
            let t = near::grain() as int * o;
            let r = f.negate() * k1 - l * k2;
            &&& r.is_finite()
            &&& -(3 * t) <= r.value() * o - (-(f.value() * k1.value()) - l.value() * k2.value())
                <= 3 * t
        }),
{
    let o = Binary64::one() as int;
    let g = near::grain() as int;
    near::lemma_grain();
    binary64::lemma_negate(f);
    near::lemma_small_product(f.negate(), k1, 2, 35);
    near::lemma_small_product(l, k2, 2, 35);
    near::lemma_small_difference(f.negate() * k1, l * k2, 71, 71);
    let (p, q, r) = (
        (f.negate() * k1).value(),
        (l * k2).value(),
        (f.negate() * k1 - l * k2).value(),
    );
    let (x, k) = (f.value(), k1.value());
    assert((-x) * k == -(x * k)) by (nonlinear_arith);
    let d = r - (p - q);
    assert(-(g * o) <= d * o <= g * o) by (nonlinear_arith)
        requires
            -g <= d <= g,
            o > 0,
    ;
    assert(r * o == d * o + p * o - q * o) by (nonlinear_arith)
        requires
            d == r - (p - q),
    ;
}

/// What a vector made of two directions comes to along one of them.
proof fn lemma_component(
    a: (int, int, int),
    f: (int, int, int),
    l: (int, int, int),
    along: (int, int, int),
    k1: int,
    k2: int,
    o: int,
    g: int,
)
    requires
        o > 0,
        g > 0,
        -(3 * (g * o)) <= a.0 * o - (-(f.0 * k1) - l.0 * k2) <= 3 * (g * o),
        -(3 * (g * o)) <= a.1 * o - (-(f.1 * k1) - l.1 * k2) <= 3 * (g * o),
        -(3 * (g * o)) <= a.2 * o - (-(f.2 * k1) - l.2 * k2) <= 3 * (g * o),
        -(2 * o) <= along.0 <= 2 * o,
        -(2 * o) <= along.1 <= 2 * o,
        -(2 * o) <= along.2 <= 2 * o,
    ensures
        ({
            let d = a.0 * along.0 + a.1 * along.1 + a.2 * along.2;
            let fa = f.0 * along.0 + f.1 * along.1 + f.2 * along.2;
            let la = l.0 * along.0 + l.1 * along.1 + l.2 * along.2;
            -(18 * (g * (o * o))) <= d * o + k1 * fa + k2 * la <= 18 * (g * (o * o))
        }),
{
    let t = 3 * (g * o);
    let (a0, a1, a2) = a;
    let (f0, f1, f2) = f;
    let (l0, l1, l2) = l;
    let (x, y, z) = along;
    let e0 = a0 * o - (-(f0 * k1) - l0 * k2);
    let e1 = a1 * o - (-(f1 * k1) - l1 * k2);
    let e2 = a2 * o - (-(f2 * k1) - l2 * k2);
    ways::lemma_error(e0, e1, e2, x, y, z, t, 2 * o);
    assert(t * (2 * o) == 6 * (g * (o * o))) by (nonlinear_arith)
        requires
            t == 3 * (g * o),
    ;
    lemma_turned_term(a0, f0, l0, k1, k2, x, o);
    lemma_turned_term(a1, f1, l1, k1, k2, y, o);
    lemma_turned_term(a2, f2, l2, k1, k2, z, o);
    let (p, q, r) = (a0 * x, a1 * y, a2 * z);
    assert((p + q + r) * o == p * o + q * o + r * o) by (nonlinear_arith);
    let (p, q, r) = (f0 * x, f1 * y, f2 * z);
    assert(k1 * (p + q + r) == k1 * p + k1 * q + k1 * r) by (nonlinear_arith);
    let (p, q, r) = (l0 * x, l1 * y, l2 * z);
    assert(k2 * (p + q + r) == k2 * p + k2 * q + k2 * r) by (nonlinear_arith);
}

proof fn lemma_turned_term(a: int, f: int, l: int, k1: int, k2: int, x: int, o: int)
    ensures
        (a * o - (-(f * k1) - l * k2)) * x == (a * x) * o + k1 * (f * x) + k2 * (l * x),
{
    let (p, q, r) = (a * o, f * k1, l * k2);
    assert((p - (-q - r)) * x == p * x + q * x + r * x) by (nonlinear_arith);
    assert((a * o) * x == (a * x) * o) by (nonlinear_arith);
    assert((f * k1) * x == k1 * (f * x)) by (nonlinear_arith);
    assert((l * k2) * x == k2 * (l * x)) by (nonlinear_arith);
}

/// Where one way is of length one and square to the other.
proof fn lemma_square_ways(d: int, k: int, j: int, own: int, other: int, o: int, g: int)
    requires
        o > 0,
        g > 0,
        o == 0x100000000 * g,
        -(35 * o) <= k <= 35 * o,
        -(35 * o) <= j <= 35 * o,
        -(o * o) <= (own - o * o) * 0x200000000000 <= o * o,
        -(o * o) <= 0x2000000000 * other <= o * o,
        -(18 * (g * (o * o))) <= d * o + k * own + j * other <= 18 * (g * (o * o)),
    ensures
        -(22 * (g * o)) <= d + k * o <= 22 * (g * o),
{
    let u = o * o;
    let e = own - u;
    let gu = g * u;
    let ou = o * u;
    assert(ou == 0x100000000 * gu && gu > 0) by (nonlinear_arith)
        requires
            ou == o * u,
            gu == g * u,
            o == 0x100000000 * g,
            u == o * o,
            g > 0,
            o > 0,
    {
        assert(o * o > 0) by (nonlinear_arith)
            requires
                o > 0,
        ;
        assert(g * u > 0) by (nonlinear_arith)
            requires
                g > 0,
                u > 0,
        ;
        assert((0x100000000 * g) * u == 0x100000000 * (g * u)) by (nonlinear_arith);
    }
    let (w, v) = (0x200000000000 * e, 0x2000000000 * other);
    assert(-(35 * ou) <= k * w <= 35 * ou) by (nonlinear_arith)
        requires
            -(35 * o) <= k <= 35 * o,
            -u <= w <= u,
            ou == o * u,
    {
        let m = 35 * o;
        assert(-(m * u) <= k * w <= m * u) by (nonlinear_arith)
            requires
                -m <= k <= m,
                -u <= w <= u,
        ;
        assert(m * u == 35 * (o * u)) by (nonlinear_arith)
            requires
                m == 35 * o,
        ;
    }
    assert(-(35 * ou) <= j * v <= 35 * ou) by (nonlinear_arith)
        requires
            -(35 * o) <= j <= 35 * o,
            -u <= v <= u,
            ou == o * u,
    {
        let m = 35 * o;
        assert(-(m * u) <= j * v <= m * u) by (nonlinear_arith)
            requires
                -m <= j <= m,
                -u <= v <= u,
        ;
        assert(m * u == 35 * (o * u)) by (nonlinear_arith)
            requires
                m == 35 * o,
        ;
    }
    let (ke, jo) = (k * e, j * other);
    assert(k * w == 0x200000000000 * ke && j * v == 0x2000000000 * jo) by (nonlinear_arith)
        requires
            w == 0x200000000000 * e,
            v == 0x2000000000 * other,
            ke == k * e,
            jo == j * other,
    ;
    assert(k * own == k * u + ke) by (nonlinear_arith)
        requires
            ke == k * e,
            e == own - u,
    ;
    let s = d + k * o;
    assert(s * o == d * o + k * u) by (nonlinear_arith)
        requires
            s == d + k * o,
            u == o * o,
    ;
    let go = g * o;
    assert(gu == go * o) by (nonlinear_arith)
        requires
            gu == g * u,
            u == o * o,
            go == g * o,
    ;
    assert(-(22 * go) <= s <= 22 * go) by (nonlinear_arith)
        requires
            -(22 * (go * o)) <= s * o <= 22 * (go * o),
            o > 0,
    ;
}

/// While a tyre does not slip it holds across with the lateral coefficient and
/// along with the rolling one and as much of the braking one as the brakes are
/// set to, each times how it grips that way, against the way it slides; per
/// newton that it is pressed with, and but for rounding. The brakes do nothing
/// across.
pub proof fn tyres_hold_by_their_coefficients(
    gear: LandingGearConfig,
    state: RigidBodyState,
    brakes: Binary64,
    environment: Environment,
    ground_frame: LocalFrame,
    grip: Sliding,
)
    requires
        norm::near_unit(state.orientation.to_vec4()),
        near::sized(gear.rolling_friction_coefficient, 16),
        near::sized(gear.braking_friction_coefficient, 16),
        near::sized(gear.lateral_friction_coefficient, 16),
        near::sized(brakes, 1),
        near::sized(grip.forward, 1),
        near::sized(grip.lateral, 1),
        ({
            let plane = landing_gear::contact_plane_spec(
                gear,
                state,
                brakes,
                environment,
                ground_frame,
            );
            &&& plane.has_ways
            &&& norm::near_unit(norm::flat(plane.normal))
            &&& !(landing_gear::asked_friction(plane, grip).length() > plane.friction_limit)
        }),
    ensures
        ({
            let plane = landing_gear::contact_plane_spec(
                gear,
                state,
                brakes,
                environment,
                ground_frame,
            );
            let held = landing_gear::friction_spec(plane, grip);
            let o = Binary64::one() as int;
            let slack = 32 * (near::grain() as int * o);
            let across = landing_gear::dot_counts(held, plane.lateral);
            let along = landing_gear::dot_counts(held, plane.forward);
            let rolling = gear.rolling_friction_coefficient.value() * o + brakes.value()
                * gear.braking_friction_coefficient.value();
            let lateral = gear.lateral_friction_coefficient.value();
            &&& -slack <= across + lateral * grip.lateral.value() <= slack
            &&& -(slack * o) <= along * o + rolling * grip.forward.value() <= slack * o
        }),
{
    let o = Binary64::one() as int;
    let g = near::grain() as int;
    let plane = landing_gear::contact_plane_spec(gear, state, brakes, environment, ground_frame);
    let (rolling, braking, lateral) = (
        gear.rolling_friction_coefficient,
        gear.braking_friction_coefficient,
        gear.lateral_friction_coefficient,
    );
    near::lemma_grain();
    ways::the_ways_lie_along_the_ground(gear, state, brakes, environment, ground_frame);
    lemma_small_direction(plane.forward);
    lemma_small_direction(plane.lateral);
    near::lemma_small_product(brakes, braking, 1, 16);
    near::lemma_small_sum(rolling, brakes * braking, 16, 17);
    let c = rolling + brakes * braking;
    near::lemma_small_product(c, grip.forward, 34, 1);
    near::lemma_small_product(lateral, grip.lateral, 16, 1);
    let (k1, k2) = (c * grip.forward, lateral * grip.lateral);
    near::lemma_larger(k2, 17, 35);
    let (f, l) = (plane.forward, plane.lateral);
    let held = landing_gear::asked_friction(plane, grip);
    lemma_asked_part(f.x, l.x, k1, k2);
    lemma_asked_part(f.y, l.y, k1, k2);
    lemma_asked_part(f.z, l.z, k1, k2);
    let fv = (f.x.value(), f.y.value(), f.z.value());
    let lv = (l.x.value(), l.y.value(), l.z.value());
    let hv = (held.x.value(), held.y.value(), held.z.value());
    lemma_component(hv, fv, lv, lv, k1.value(), k2.value(), o, g);
    lemma_component(hv, fv, lv, fv, k1.value(), k2.value(), o, g);
    binary64::lemma_of(0);
    assert(0 * 0 == 0);
    let ff = fv.0 * fv.0 + fv.1 * fv.1 + fv.2 * fv.2;
    let ll = lv.0 * lv.0 + lv.1 * lv.1 + lv.2 * lv.2;
    let fl = fv.0 * lv.0 + fv.1 * lv.1 + fv.2 * lv.2;
    assert(lv.0 * fv.0 == fv.0 * lv.0 && lv.1 * fv.1 == fv.1 * lv.1 && lv.2 * fv.2 == fv.2 * lv.2)
        by (nonlinear_arith);
    let across = landing_gear::dot_counts(held, l);
    let along = landing_gear::dot_counts(held, f);
    lemma_square_ways(across, k2.value(), k1.value(), ll, fl, o, g);
    lemma_square_ways(along, k1.value(), k2.value(), ff, fl, o, g);
    let (b, cv, gf) = ((brakes * braking).value(), c.value(), grip.forward.value());
    lemma_coefficient(
        along,
        k1.value(),
        cv,
        b,
        rolling.value(),
        brakes.value() * braking.value(),
        gf,
        o,
        g,
    );
}

proof fn lemma_coefficient(
    along: int,
    k: int,
    c: int,
    b: int,
    rolling: int,
    braked: int,
    grip: int,
    o: int,
    g: int,
)
    requires
        o > 0,
        g > 0,
        -o <= grip <= o,
        -(22 * (g * o)) <= along + k * o <= 22 * (g * o),
        -(g * o) <= k * o - c * grip <= g * o,
        -g <= c - (rolling + b) <= g,
        -(g * o) <= b * o - braked <= g * o,
    ensures
        -((32 * (g * o)) * o) <= along * o + (rolling * o + braked) * grip <= (32 * (g * o)) * o,
{
    let go = g * o;
    let e = along + c * grip;
    assert(-(23 * go) <= e <= 23 * go);
    assert(-(23 * (go * o)) <= e * o <= 23 * (go * o)) by (nonlinear_arith)
        requires
            -(23 * go) <= e <= 23 * go,
            o > 0,
    ;
    let d = c - (rolling + b);
    let f = c * o - (rolling * o + braked);
    assert(d * o == c * o - rolling * o - b * o) by (nonlinear_arith)
        requires
            d == c - (rolling + b),
    ;
    assert(-go <= d * o <= go) by (nonlinear_arith)
        requires
            -g <= d <= g,
            go == g * o,
            o > 0,
    ;
    assert(-(2 * go) <= f <= 2 * go);
    lemma_more(e, f, along, c, rolling * o + braked, grip, o, go);
    assert((32 * go) * o == 32 * (go * o) && go * o >= 0) by (nonlinear_arith)
        requires
            go == g * o,
            g > 0,
            o > 0,
    {
        assert(g * o >= 0) by (nonlinear_arith)
            requires
                g > 0,
                o > 0,
        ;
        assert(go * o >= 0) by (nonlinear_arith)
            requires
                go >= 0,
                o > 0,
        ;
    }
}

proof fn lemma_more(e: int, f: int, along: int, c: int, r: int, grip: int, o: int, go: int)
    requires
        o > 0,
        e == along + c * grip,
        f == c * o - r,
        -o <= grip <= o,
        -(22 * (go * o)) - (go * o) <= e * o <= 23 * (go * o),
        -(2 * go) <= f <= 2 * go,
    ensures
        -(25 * (go * o)) <= along * o + r * grip <= 25 * (go * o),
{
    assert(-(2 * (go * o)) <= f * grip <= 2 * (go * o)) by (nonlinear_arith)
        requires
            -(2 * go) <= f <= 2 * go,
            -o <= grip <= o,
    ;
    let cg = c * grip;
    assert(e * o == along * o + cg * o) by (nonlinear_arith)
        requires
            e == along + cg,
    ;
    let co = c * o;
    assert(f * grip == co * grip - r * grip) by (nonlinear_arith)
        requires
            f == co - r,
    ;
    assert((c * grip) * o == (c * o) * grip) by (nonlinear_arith);
}

} // verus!
