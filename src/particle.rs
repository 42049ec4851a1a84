//! Structure-of-arrays particle store, the pairwise force law and the integrator.
use vstd::prelude::*;
use crate::arith::{ceil_sqrt, div_toward_zero, div_trunc, floor_sqrt, is_floor_sqrt, isqrt};
use crate::rectangle::Vec2;

verus! {

/// Number of particles advanced together by the batched integrator.
pub const LANES: usize = 8;

/// Largest mass one particle may have.
pub const MAX_MASS: u64 = 16_777_216;

/// Largest number of particles a store may hold.
pub const MAX_PARTICLES: usize = 1_048_576;

/// Largest total mass a tree may aggregate (`MAX_MASS * MAX_PARTICLES`).
pub const MAX_TREE_MASS: u64 = 17_592_186_044_416;

/// Largest gravitational constant.
pub const MAX_G: u64 = 268_435_456;

/// Bound on the magnitude of a force accumulator before a traversal adds to it.
pub const FORCE_LIMIT: i128 = 1_267_650_600_228_229_401_496_703_205_376;

/// Bound on a displacement fed to the force law (twice the world extent).
pub const MAX_SPAN: i64 = 1_073_741_824;

/// Bound on the numerator and denominator of the acceptance ratio.
pub const MAX_THETA_TERM: u64 = 65_536;

/// A force vector; wider than positions since it sums many contributions.
#[derive(Clone, Copy, Debug, PartialEq, Eq, Structural)]
pub struct Force2 {
    pub x: i128,
    pub y: i128,
}

/// Fixed parameters of the force computation, in lattice units.
///
/// The acceptance threshold is the ratio `theta_num / theta_den`: a cluster
/// of width `w` at softened distance `d` is taken as one body when
/// `w / d < theta_num / theta_den`.
#[derive(Clone, Copy, Debug, PartialEq, Eq, Structural)]
pub struct ForceParams {
    pub g: u64,
    pub softening: u64,
    pub theta_num: u64,
    pub theta_den: u64,
}

impl ForceParams {
    pub open spec fn wf(self) -> bool {
        &&& self.g <= MAX_G
        &&& 1 <= self.softening <= crate::quadtree::WORLD_LIMIT
        &&& self.theta_num <= MAX_THETA_TERM
        &&& 1 <= self.theta_den <= MAX_THETA_TERM
    }

    /// Parameters with the usual acceptance threshold of one half.
    pub fn new(g: u64, softening: u64) -> (r: ForceParams)
        requires
            g <= MAX_G,
            1 <= softening <= crate::quadtree::WORLD_LIMIT,
        ensures
            r.wf(),
            r.g == g,
            r.softening == softening,
            r.theta_num == 1,
            r.theta_den == 2,
    {
        ForceParams { g, softening, theta_num: 1, theta_den: 2 }
    }

    /// Parameters with a zero threshold: every cluster is opened down to its leaves.
    pub fn exact(g: u64, softening: u64) -> (r: ForceParams)
        requires
            g <= MAX_G,
            1 <= softening <= crate::quadtree::WORLD_LIMIT,
        ensures
            r.wf(),
            r.g == g,
            r.softening == softening,
            r.theta_num == 0,
            r.theta_den == 1,
    {
        ForceParams { g, softening, theta_num: 0, theta_den: 1 }
    }
}

/// One component of the attraction on a body of mass `m1` toward a body of
/// mass `m2` displaced by `(d, e)`: magnitude `g*m1*m2 / (d^2 + e^2 + eps^2)`,
/// direction the displacement normalised by its unsoftened length (rounded up,
/// so that rounding never strengthens the pull), the result rounded toward zero.
/// Coincident bodies exert no force.
///
/// A cluster taken as one body uses the same law at its center of mass: the
/// softening enters the magnitude only, never the normalisation of the direction.
pub open spec fn force_component(g: int, eps: int, m1: int, m2: int, d: int, e: int) -> int {
    let n2 = d * d + e * e;
    let norm = ceil_sqrt(n2);
    if norm == 0 {
        0
    } else {
        div_trunc(g * m1 * m2 * d, (n2 + eps * eps) * norm)
    }
}

pub open spec fn pair_force_spec(p: ForceParams, m1: int, m2: int, dx: int, dy: int) -> (int, int) {
    (
        force_component(p.g as int, p.softening as int, m1, m2, dx, dy),
        force_component(p.g as int, p.softening as int, m1, m2, dy, dx),
    )
}

pub proof fn lemma_component_bound(g: int, eps: int, m1: int, m2: int, d: int, e: int)
    requires
        0 <= g,
        1 <= eps,
        0 <= m1,
        0 <= m2,
    ensures
        -(g * m1 * m2) <= force_component(g, eps, m1, m2, d, e) <= g * m1 * m2,
{
    let n2 = d * d + e * e;
    assert(n2 >= 0) by (nonlinear_arith)
        requires
            n2 == d * d + e * e,
    ;
    let norm = ceil_sqrt(n2);
    if norm != 0 {
        let k = g * m1 * m2;
        assert(k >= 0) by (nonlinear_arith)
            requires
                k == g * m1 * m2,
                0 <= g,
                0 <= m1,
                0 <= m2,
        ;
        let ad = if d >= 0 {
            d
        } else {
            -d
        };
        assert(ad * ad == d * d) by (nonlinear_arith)
            requires
                ad == d || ad == -d,
        ;
        assert(e * e >= 0) by (nonlinear_arith);
        assert(ad * ad <= n2);
        let r = isqrt_witness(n2);
        crate::arith::lemma_floor_sqrt_at_least(ad, n2);
        assert(ad <= floor_sqrt(n2) <= norm);
        let den = (n2 + eps * eps) * norm;
        assert(eps * eps >= 1) by (nonlinear_arith)
            requires
                1 <= eps,
        ;
        assert(norm >= 1);
        assert(k * ad <= k * den) by (nonlinear_arith)
            requires
                k >= 0,
                0 <= ad <= norm,
                norm >= 1,
                n2 + eps * eps >= 1,
                den == (n2 + eps * eps) * norm,
        ;
        assert(k * ad >= 0) by (nonlinear_arith)
            requires
                k >= 0,
                ad >= 0,
        ;
        assert(den > 0) by (nonlinear_arith)
            requires
                norm >= 1,
                n2 + eps * eps >= 1,
                den == (n2 + eps * eps) * norm,
        ;
        vstd::arithmetic::div_mod::lemma_div_is_ordered(k * ad, k * den, den);
        vstd::arithmetic::div_mod::lemma_div_multiples_vanish(k, den);
        assert(k * ad / den >= 0) by {
            vstd::arithmetic::div_mod::lemma_div_is_ordered(0, k * ad, den);
        }
        if d >= 0 {
            assert(g * m1 * m2 * d == k * ad);
        } else {
            assert(-(g * m1 * m2 * d) == k * ad) by (nonlinear_arith)
                requires
                    k == g * m1 * m2,
                    ad == -d,
            ;
        }
        assert(k * den / den == k) by {
            assert(k * den == den * k) by (nonlinear_arith);
        }
    }
}

/// `|a| / den` times `den` stays within `|a|`, for the magnitude of a truncated quotient.
proof fn lemma_trunc_times(a: int, den: int)
    requires
        den > 0,
    ensures
        0 <= (if a >= 0 { div_trunc(a, den) } else { -div_trunc(a, den) }) * den <= (if a >= 0 {
            a
        } else {
            -a
        }),
{
    let aa = if a >= 0 {
        a
    } else {
        -a
    };
    vstd::arithmetic::div_mod::lemma_fundamental_div_mod(aa, den);
    vstd::arithmetic::div_mod::lemma_mod_pos_bound(aa, den);
    vstd::arithmetic::div_mod::lemma_div_pos_is_pos(aa, den);
    assert((aa / den) * den == den * (aa / den)) by (nonlinear_arith);
    assert(0 <= (aa / den) * den) by (nonlinear_arith)
        requires
            aa / den >= 0,
            den > 0,
    ;
}

/// The pair force never exceeds the softened bound `g*m1*m2 / eps^2` in length.
pub proof fn lemma_pair_magnitude(g: int, eps: int, m1: int, m2: int, d: int, e: int)
    requires
        0 <= g,
        1 <= eps,
        0 <= m1,
        0 <= m2,
    ensures
        ({
            let fx = force_component(g, eps, m1, m2, d, e);
            let fy = force_component(g, eps, m1, m2, e, d);
            (fx * fx + fy * fy) * (eps * eps * eps * eps) <= (g * m1 * m2) * (g * m1 * m2)
        }),
{
    let k = g * m1 * m2;
    assert(k >= 0) by (nonlinear_arith)
        requires
            k == g * m1 * m2,
            0 <= g,
            0 <= m1,
            0 <= m2,
    ;
    let n2 = d * d + e * e;
    let n2e = e * e + d * d;
    assert(n2 == n2e);
    assert(d * d >= 0 && e * e >= 0) by (nonlinear_arith);
    let fx = force_component(g, eps, m1, m2, d, e);
    let fy = force_component(g, eps, m1, m2, e, d);
    let norm = ceil_sqrt(n2);
    if norm == 0 {
        assert(fx == 0 && fy == 0);
        assert(k * k >= 0) by (nonlinear_arith);
    } else {
        let r = isqrt_witness(n2);
        let fl = floor_sqrt(n2);
        crate::arith::lemma_floor_sqrt_is(r, n2);
        assert(n2 <= norm * norm) by (nonlinear_arith)
            requires
                fl * fl <= n2 < (fl + 1) * (fl + 1),
                norm == fl || norm == fl + 1,
                norm == fl ==> fl * fl == n2,
        ;
        assert(norm >= 1) by (nonlinear_arith)
            requires
                0 <= fl,
                norm == fl || norm == fl + 1,
                norm != 0,
        ;
        let rr = n2 + eps * eps;
        assert(eps * eps >= 1) by (nonlinear_arith)
            requires
                1 <= eps,
        ;
        let den = rr * norm;
        assert(den > 0) by (nonlinear_arith)
            requires
                rr >= 1,
                norm >= 1,
                den == rr * norm,
        ;
        let a = k * d;
        let b = k * e;
        lemma_trunc_times(a, den);
        lemma_trunc_times(b, den);
        let qx = if fx >= 0 {
            fx
        } else {
            -fx
        };
        let qy = if fy >= 0 {
            fy
        } else {
            -fy
        };
        let ad = if d >= 0 {
            d
        } else {
            -d
        };
        let ae = if e >= 0 {
            e
        } else {
            -e
        };
        assert(fx == div_trunc(a, den));
        assert(fy == div_trunc(b, den));
        // magnitudes of the truncated quotients
        assert(0 <= qx * den <= k * ad) by {
            if a >= 0 {
                vstd::arithmetic::div_mod::lemma_div_pos_is_pos(a, den);
                assert(k * ad == a) by (nonlinear_arith)
                    requires
                        a == k * d,
                        ad == d || ad == -d,
                        a >= 0,
                        k >= 0,
                        (d >= 0 ==> ad == d),
                        (d < 0 ==> ad == -d),
                ;
            } else {
                vstd::arithmetic::div_mod::lemma_div_pos_is_pos(-a, den);
                assert(k * ad == -a) by (nonlinear_arith)
                    requires
                        a == k * d,
                        a < 0,
                        k >= 0,
                        (d >= 0 ==> ad == d),
                        (d < 0 ==> ad == -d),
                ;
            }
        }
        assert(0 <= qy * den <= k * ae) by {
            if b >= 0 {
                vstd::arithmetic::div_mod::lemma_div_pos_is_pos(b, den);
                assert(k * ae == b) by (nonlinear_arith)
                    requires
                        b == k * e,
                        b >= 0,
                        k >= 0,
                        (e >= 0 ==> ae == e),
                        (e < 0 ==> ae == -e),
                ;
            } else {
                vstd::arithmetic::div_mod::lemma_div_pos_is_pos(-b, den);
                assert(k * ae == -b) by (nonlinear_arith)
                    requires
                        b == k * e,
                        b < 0,
                        k >= 0,
                        (e >= 0 ==> ae == e),
                        (e < 0 ==> ae == -e),
                ;
            }
        }
        assert(qx >= 0 && qy >= 0);
        assert((qx * den) * (qx * den) <= (k * ad) * (k * ad)) by (nonlinear_arith)
            requires
                0 <= qx * den <= k * ad,
        ;
        assert((qy * den) * (qy * den) <= (k * ae) * (k * ae)) by (nonlinear_arith)
            requires
                0 <= qy * den <= k * ae,
        ;
        assert(ad * ad + ae * ae == n2) by (nonlinear_arith)
            requires
                (d >= 0 ==> ad == d),
                (d < 0 ==> ad == -d),
                (e >= 0 ==> ae == e),
                (e < 0 ==> ae == -e),
                n2 == d * d + e * e,
        ;
        let s = qx * qx + qy * qy;
        assert(s * (den * den) == (qx * den) * (qx * den) + (qy * den) * (qy * den)) by (
        nonlinear_arith)
            requires
                s == qx * qx + qy * qy,
        ;
        assert((k * ad) * (k * ad) + (k * ae) * (k * ae) == (k * k) * (ad * ad + ae * ae)) by (
        nonlinear_arith);
        assert(s * (den * den) <= (k * k) * n2);
        assert(k * k >= 0) by (nonlinear_arith);
        assert((k * k) * n2 <= (k * k) * (norm * norm)) by (nonlinear_arith)
            requires
                k * k >= 0,
                n2 <= norm * norm,
        ;
        assert(s * (rr * rr) <= k * k) by (nonlinear_arith)
            requires
                s * (den * den) <= (k * k) * (norm * norm),
                den == rr * norm,
                norm >= 1,
                s >= 0,
        ;
        assert(s >= 0) by (nonlinear_arith)
            requires
                s == qx * qx + qy * qy,
        ;
        assert(eps * eps * eps * eps <= rr * rr) by (nonlinear_arith)
            requires
                eps * eps <= rr,
                eps * eps >= 1,
        ;
        assert(s * (eps * eps * eps * eps) <= s * (rr * rr)) by (nonlinear_arith)
            requires
                s >= 0,
                eps * eps * eps * eps <= rr * rr,
        ;
        assert(fx * fx == qx * qx && fy * fy == qy * qy) by (nonlinear_arith)
            requires
                qx == fx || qx == -fx,
                qy == fy || qy == -fy,
        ;
    }
}

/// Every non-negative integer has a floor square root.
proof fn isqrt_witness(n: int) -> (r: int)
    requires
        0 <= n,
    ensures
        is_floor_sqrt(r, n),
        exists|s: int| is_floor_sqrt(s, n),
    decreases n,
{
    if n == 0 {
        assert(is_floor_sqrt(0, 0));
        0
    } else {
        let s = isqrt_witness(n - 1);
        let r = if (s + 1) * (s + 1) <= n {
            s + 1
        } else {
            s
        };
        assert(n < (r + 1) * (r + 1)) by (nonlinear_arith)
            requires
                s * s <= n - 1,
                n - 1 < (s + 1) * (s + 1),
                0 <= s,
                r == s + 1 || r == s,
                r == s + 1 <==> (s + 1) * (s + 1) <= n,
        ;
        assert(is_floor_sqrt(r, n));
        r
    }
}

/// The attraction between two bodies displaced by `(dx, dy)`.
pub fn pair_force(p: &ForceParams, m1: u64, m2: u64, dx: i64, dy: i64) -> (r: Force2)
    requires
        p.wf(),
        m1 <= MAX_MASS,
        m2 <= MAX_TREE_MASS,
        -MAX_SPAN <= dx <= MAX_SPAN,
        -MAX_SPAN <= dy <= MAX_SPAN,
    ensures
        (r.x as int, r.y as int) == pair_force_spec(*p, m1 as int, m2 as int, dx as int, dy as int),
        -(p.g * m1 * m2) <= r.x <= p.g * m1 * m2,
        -(p.g * m1 * m2) <= r.y <= p.g * m1 * m2,
        (r.x * r.x + r.y * r.y) * (p.softening * p.softening * p.softening * p.softening) <= (p.g
            * m1 * m2) * (p.g * m1 * m2),
{
    let ghost gi = p.g as int;
    proof {
        lemma_pair_magnitude(gi, p.softening as int, m1 as int, m2 as int, dx as int, dy as int);
        lemma_component_bound(gi, p.softening as int, m1 as int, m2 as int, dx as int, dy as int);
        lemma_component_bound(gi, p.softening as int, m1 as int, m2 as int, dy as int, dx as int);
    }
    let ddx = dx as i128;
    let ddy = dy as i128;
    assert(0 <= ddx * ddx <= 0x1000_0000_0000_0000) by (nonlinear_arith)
        requires
            -0x4000_0000 <= ddx <= 0x4000_0000,
    ;
    assert(0 <= ddy * ddy <= 0x1000_0000_0000_0000) by (nonlinear_arith)
        requires
            -0x4000_0000 <= ddy <= 0x4000_0000,
    ;
    let n2: i128 = ddx * ddx + ddy * ddy;
    assert(n2 >= 0) by (nonlinear_arith)
        requires
            n2 == ddx * ddx + ddy * ddy,
    ;
    let root = isqrt(n2 as u128);
    assert(root as int * root as int <= 0x2000_0000_0000_0000);
    assert(root <= 0x8000_0000) by (nonlinear_arith)
        requires
            root as int * root as int <= 0x2000_0000_0000_0000,
            root >= 0,
    ;
    let norm: u64 = if (root as u128) * (root as u128) == n2 as u128 {
        root
    } else {
        root + 1
    };
    assert(norm == ceil_sqrt(n2 as int));
    if norm == 0 {
        return Force2 { x: 0, y: 0 };
    }
    let eps = p.softening as i128;
    assert(1 <= eps * eps <= 0x400_0000_0000_0000) by (nonlinear_arith)
        requires
            1 <= eps <= 0x2000_0000,
    ;
    assert(0 <= (n2 + eps * eps) * (norm as i128) <= 0x2400_0000_0000_0000 * 0x8000_0001) by (
    nonlinear_arith)
        requires
            0 <= n2 + eps * eps <= 0x2400_0000_0000_0000,
            0 <= norm <= 0x8000_0001,
    ;
    let den: i128 = (n2 + eps * eps) * (norm as i128);
    assert(den > 0) by (nonlinear_arith)
        requires
            den == (n2 + eps * eps) * (norm as i128),
            norm >= 1,
            n2 >= 0,
            eps >= 1,
    ;
    assert(0 <= (p.g as i128) * (m1 as i128) <= 0x10_0000_0000_0000) by (nonlinear_arith)
        requires
            0 <= p.g <= 0x1000_0000,
            0 <= m1 <= 0x100_0000,
    ;
    assert(0 <= (p.g as i128) * (m1 as i128) * (m2 as i128) <= 0x10_0000_0000_0000
        * 0x1000_0000_0000) by (nonlinear_arith)
        requires
            0 <= (p.g as i128) * (m1 as i128) <= 0x10_0000_0000_0000,
            0 <= m2 <= 0x1000_0000_0000,
    ;
    let k: i128 = (p.g as i128) * (m1 as i128) * (m2 as i128);
    assert(-0x4000_0000_0000_0000_0000_0000_0000_0000i128 <= k * ddx
        <= 0x4000_0000_0000_0000_0000_0000_0000_0000i128) by (nonlinear_arith)
        requires
            0 <= k <= 0x10_0000_0000_0000 * 0x1000_0000_0000,
            -0x4000_0000 <= ddx <= 0x4000_0000,
    ;
    assert(-0x4000_0000_0000_0000_0000_0000_0000_0000i128 <= k * ddy
        <= 0x4000_0000_0000_0000_0000_0000_0000_0000i128) by (nonlinear_arith)
        requires
            0 <= k <= 0x10_0000_0000_0000 * 0x1000_0000_0000,
            -0x4000_0000 <= ddy <= 0x4000_0000,
    ;
    let fx = div_toward_zero(k * ddx, den);
    let fy = div_toward_zero(k * ddy, den);
    Force2 { x: fx, y: fy }
}

/// One semi-implicit Euler step of one coordinate:
/// velocity first, then position with the new velocity.
pub open spec fn stepped_velocity(v: int, f: int, m: int) -> int {
    v + div_trunc(f, m)
}

pub open spec fn stepped_position(p: int, v: int, f: int, m: int) -> int {
    p + stepped_velocity(v, f, m)
}

pub open spec fn fits_i64(v: int) -> bool {
    i64::MIN <= v <= i64::MAX
}

/// Position and velocity of one coordinate after `k` steps under a constant force.
pub open spec fn steps(p: int, v: int, f: int, m: int, k: nat) -> (int, int)
    decreases k,
{
    if k == 0 {
        (p, v)
    } else {
        let (p1, v1) = steps(p, v, f, m, (k - 1) as nat);
        (stepped_position(p1, v1, f, m), stepped_velocity(v1, f, m))
    }
}

/// A particle at rest whose force divided by its mass is zero stays where it
/// is, at rest, after any number of steps.
pub proof fn lemma_rest_is_fixed(p: int, f: int, m: int, k: nat)
    requires
        div_trunc(f, m) == 0,
    ensures
        steps(p, 0, f, m, k) == (p, 0int),
    decreases k,
{
    if k > 0 {
        lemma_rest_is_fixed(p, f, m, (k - 1) as nat);
    }
}

/// From rest at the origin under a constant force with `a = f / m`, after `k`
/// steps the velocity is `a * k` and the position `a * k * (k + 1) / 2`.
pub proof fn lemma_constant_force_recurrence(f: int, m: int, k: nat)
    ensures
        steps(0, 0, f, m, k).1 == div_trunc(f, m) * k,
        2 * steps(0, 0, f, m, k).0 == div_trunc(f, m) * k * (k + 1),
    decreases k,
{
    if k > 0 {
        lemma_constant_force_recurrence(f, m, (k - 1) as nat);
        let a = div_trunc(f, m);
        let j = k - 1;
        let prev = steps(0, 0, f, m, (k - 1) as nat);
        assert(steps(0, 0, f, m, k) == (prev.0 + prev.1 + a, prev.1 + a));
        assert(a * j + a == a * k) by (nonlinear_arith)
            requires
                j == k - 1,
        ;
        assert(2 * prev.0 == a * j * (j + 1));
        assert(prev.1 == a * j);
        assert(2 * (prev.0 + prev.1 + a) == a * k * (k + 1)) by (nonlinear_arith)
            requires
                j == k - 1,
                2 * prev.0 == a * j * (j + 1),
                prev.1 == a * j,
        ;
    } else {
        let a = div_trunc(f, m);
        assert(a * k * (k + 1) == 0 && a * k == 0) by (nonlinear_arith)
            requires
                k == 0,
        ;
    }
}

/// One particle as a unit: identifier, position, velocity, net force, mass, radius.
pub type Row = (usize, i64, i64, i64, i64, i128, i128, u64, u64);

/// Structure-of-arrays store of particles, indexed by storage slot.
#[derive(Clone, Debug)]
pub struct ParticleSystem {
    pub pos_x: Vec<i64>,
    pub pos_y: Vec<i64>,
    pub vel_x: Vec<i64>,
    pub vel_y: Vec<i64>,
    pub net_force_x: Vec<i128>,
    pub net_force_y: Vec<i128>,
    pub mass: Vec<u64>,
    pub radius: Vec<u64>,
    pub indices: Vec<usize>,
    pub count: usize,
}

impl ParticleSystem {
    /// Every array holds one entry per particle and every mass is positive and bounded.
    pub open spec fn wf(&self) -> bool {
        &&& self.count <= MAX_PARTICLES
        &&& self.pos_x@.len() == self.count
        &&& self.pos_y@.len() == self.count
        &&& self.vel_x@.len() == self.count
        &&& self.vel_y@.len() == self.count
        &&& self.net_force_x@.len() == self.count
        &&& self.net_force_y@.len() == self.count
        &&& self.mass@.len() == self.count
        &&& self.radius@.len() == self.count
        &&& self.indices@.len() == self.count
        &&& forall|i: int| 0 <= i < self.count ==> 1 <= #[trigger] self.mass@[i] <= MAX_MASS
        &&& forall|i: int|
            0 <= i < self.count ==> self.net_force_x@[i] > i128::MIN && self.net_force_y@[i]
                > i128::MIN
    }

    pub open spec fn row(&self, i: int) -> Row {
        (
            self.indices@[i],
            self.pos_x@[i],
            self.pos_y@[i],
            self.vel_x@[i],
            self.vel_y@[i],
            self.net_force_x@[i],
            self.net_force_y@[i],
            self.mass@[i],
            self.radius@[i],
        )
    }

    pub open spec fn rows(&self) -> Seq<Row> {
        Seq::new(self.count as nat, |i: int| self.row(i))
    }

    /// The integration step keeps slot `i`'s velocity and position within `i64`.
    pub open spec fn slot_fits(&self, i: int) -> bool {
        &&& fits_i64(
            stepped_velocity(self.vel_x@[i] as int, self.net_force_x@[i] as int, self.mass@[i] as int),
        )
        &&& fits_i64(
            stepped_velocity(self.vel_y@[i] as int, self.net_force_y@[i] as int, self.mass@[i] as int),
        )
        &&& fits_i64(
            stepped_position(
                self.pos_x@[i] as int,
                self.vel_x@[i] as int,
                self.net_force_x@[i] as int,
                self.mass@[i] as int,
            ),
        )
        &&& fits_i64(
            stepped_position(
                self.pos_y@[i] as int,
                self.vel_y@[i] as int,
                self.net_force_y@[i] as int,
                self.mass@[i] as int,
            ),
        )
    }

    /// The integration step keeps every velocity and position within `i64`.
    pub open spec fn step_fits(&self) -> bool {
        forall|i: int| 0 <= i < self.count ==> #[trigger] self.slot_fits(i)
    }

    pub fn new() -> (r: ParticleSystem)
        ensures
            r.wf(),
            r.count == 0,
    {
        ParticleSystem {
            pos_x: Vec::new(),
            pos_y: Vec::new(),
            vel_x: Vec::new(),
            vel_y: Vec::new(),
            net_force_x: Vec::new(),
            net_force_y: Vec::new(),
            mass: Vec::new(),
            radius: Vec::new(),
            indices: Vec::new(),
            count: 0,
        }
    }

    pub fn with_capacity(capacity: usize) -> (r: ParticleSystem)
        ensures
            r.wf(),
            r.count == 0,
    {
        ParticleSystem {
            pos_x: Vec::with_capacity(capacity),
            pos_y: Vec::with_capacity(capacity),
            vel_x: Vec::with_capacity(capacity),
            vel_y: Vec::with_capacity(capacity),
            net_force_x: Vec::with_capacity(capacity),
            net_force_y: Vec::with_capacity(capacity),
            mass: Vec::with_capacity(capacity),
            radius: Vec::with_capacity(capacity),
            indices: Vec::with_capacity(capacity),
            count: 0,
        }
    }

    /// Appends a particle at rest force-wise. A mass outside `1..=MAX_MASS`, or a
    /// full store, is rejected: nothing is added and `false` is returned.
    pub fn add_particle(&mut self, pos: Vec2, vel: Vec2, mass: u64, radius: u64, index: usize) -> (r:
        bool)
        requires
            old(self).wf(),
        ensures
            final(self).wf(),
            r == (1 <= mass <= MAX_MASS && old(self).count < MAX_PARTICLES),
            r ==> final(self).rows() == old(self).rows().push(
                (index, pos.x, pos.y, vel.x, vel.y, 0i128, 0i128, mass, radius),
            ),
            !r ==> *final(self) == *old(self),
    {
        if mass == 0 || mass > MAX_MASS || self.count >= MAX_PARTICLES {
            return false;
        }
        self.pos_x.push(pos.x);
        self.pos_y.push(pos.y);
        self.vel_x.push(vel.x);
        self.vel_y.push(vel.y);
        self.net_force_x.push(0);
        self.net_force_y.push(0);
        self.mass.push(mass);
        self.radius.push(radius);
        self.indices.push(index);
        self.count = self.count + 1;
        assert(self.rows() =~= old(self).rows().push(
            (index, pos.x, pos.y, vel.x, vel.y, 0i128, 0i128, mass, radius),
        ));
        true
    }

    pub fn get_position(&self, idx: usize) -> (r: Vec2)
        requires
            self.wf(),
            idx < self.count,
        ensures
            r.x == self.pos_x@[idx as int],
            r.y == self.pos_y@[idx as int],
    {
        Vec2 { x: self.pos_x[idx], y: self.pos_y[idx] }
    }

    pub fn set_position(&mut self, idx: usize, pos: Vec2)
        requires
            old(self).wf(),
            idx < old(self).count,
        ensures
            final(self).wf(),
            final(self).pos_x@ == old(self).pos_x@.update(idx as int, pos.x),
            final(self).pos_y@ == old(self).pos_y@.update(idx as int, pos.y),
            final(self).vel_x == old(self).vel_x,
            final(self).vel_y == old(self).vel_y,
            final(self).net_force_x == old(self).net_force_x,
            final(self).net_force_y == old(self).net_force_y,
            final(self).mass == old(self).mass,
            final(self).radius == old(self).radius,
            final(self).indices == old(self).indices,
            final(self).count == old(self).count,
    {
        self.pos_x[idx] = pos.x;
        self.pos_y[idx] = pos.y;
    }

    pub fn get_velocity(&self, idx: usize) -> (r: Vec2)
        requires
            self.wf(),
            idx < self.count,
        ensures
            r.x == self.vel_x@[idx as int],
            r.y == self.vel_y@[idx as int],
    {
        Vec2 { x: self.vel_x[idx], y: self.vel_y[idx] }
    }

    pub fn set_velocity(&mut self, idx: usize, vel: Vec2)
        requires
            old(self).wf(),
            idx < old(self).count,
        ensures
            final(self).wf(),
            final(self).vel_x@ == old(self).vel_x@.update(idx as int, vel.x),
            final(self).vel_y@ == old(self).vel_y@.update(idx as int, vel.y),
            final(self).pos_x == old(self).pos_x,
            final(self).pos_y == old(self).pos_y,
            final(self).net_force_x == old(self).net_force_x,
            final(self).net_force_y == old(self).net_force_y,
            final(self).mass == old(self).mass,
            final(self).radius == old(self).radius,
            final(self).indices == old(self).indices,
            final(self).count == old(self).count,
    {
        self.vel_x[idx] = vel.x;
        self.vel_y[idx] = vel.y;
    }

    pub fn get_net_force(&self, idx: usize) -> (r: Force2)
        requires
            self.wf(),
            idx < self.count,
        ensures
            r.x == self.net_force_x@[idx as int],
            r.y == self.net_force_y@[idx as int],
    {
        Force2 { x: self.net_force_x[idx], y: self.net_force_y[idx] }
    }

    pub fn set_net_force(&mut self, idx: usize, force: Force2)
        requires
            old(self).wf(),
            idx < old(self).count,
            force.x > i128::MIN,
            force.y > i128::MIN,
        ensures
            final(self).wf(),
            final(self).net_force_x@ == old(self).net_force_x@.update(idx as int, force.x),
            final(self).net_force_y@ == old(self).net_force_y@.update(idx as int, force.y),
            final(self).pos_x == old(self).pos_x,
            final(self).pos_y == old(self).pos_y,
            final(self).vel_x == old(self).vel_x,
            final(self).vel_y == old(self).vel_y,
            final(self).mass == old(self).mass,
            final(self).radius == old(self).radius,
            final(self).indices == old(self).indices,
            final(self).count == old(self).count,
    {
        self.net_force_x[idx] = force.x;
        self.net_force_y[idx] = force.y;
    }

    pub fn reset_net_force(&mut self, idx: usize)
        requires
            old(self).wf(),
            idx < old(self).count,
        ensures
            final(self).wf(),
            final(self).net_force_x@ == old(self).net_force_x@.update(idx as int, 0),
            final(self).net_force_y@ == old(self).net_force_y@.update(idx as int, 0),
            final(self).pos_x == old(self).pos_x,
            final(self).pos_y == old(self).pos_y,
            final(self).vel_x == old(self).vel_x,
            final(self).vel_y == old(self).vel_y,
            final(self).mass == old(self).mass,
            final(self).radius == old(self).radius,
            final(self).indices == old(self).indices,
            final(self).count == old(self).count,
    {
        self.net_force_x[idx] = 0;
        self.net_force_y[idx] = 0;
    }

    pub fn reset_all_net_force(&mut self)
        requires
            old(self).wf(),
        ensures
            final(self).wf(),
            forall|i: int|
                0 <= i < final(self).count ==> final(self).net_force_x@[i] == 0
                    && final(self).net_force_y@[i] == 0,
            final(self).pos_x == old(self).pos_x,
            final(self).pos_y == old(self).pos_y,
            final(self).vel_x == old(self).vel_x,
            final(self).vel_y == old(self).vel_y,
            final(self).net_force_x@.len() == old(self).net_force_x@.len(),
            final(self).net_force_y@.len() == old(self).net_force_y@.len(),
            final(self).mass == old(self).mass,
            final(self).radius == old(self).radius,
            final(self).indices == old(self).indices,
            final(self).count == old(self).count,
    {
        let mut i: usize = 0;
        while i < self.count
            invariant
                self.wf(),
                i <= self.count,
                forall|k: int| 0 <= k < i ==> self.net_force_x@[k] == 0 && self.net_force_y@[k] == 0,
                self.pos_x == old(self).pos_x,
                self.pos_y == old(self).pos_y,
                self.vel_x == old(self).vel_x,
                self.vel_y == old(self).vel_y,
                self.mass == old(self).mass,
                self.radius == old(self).radius,
                self.indices == old(self).indices,
                self.count == old(self).count,
            decreases self.count - i,
        {
            self.net_force_x[i] = 0;
            self.net_force_y[i] = 0;
            i = i + 1;
        }
    }

    pub fn add_to_net_force(&mut self, idx: usize, force: Force2)
        requires
            old(self).wf(),
            idx < old(self).count,
            i128::MIN < old(self).net_force_x@[idx as int] + force.x <= i128::MAX,
            i128::MIN < old(self).net_force_y@[idx as int] + force.y <= i128::MAX,
        ensures
            final(self).wf(),
            final(self).net_force_x@ == old(self).net_force_x@.update(
                idx as int,
                (old(self).net_force_x@[idx as int] + force.x) as i128,
            ),
            final(self).net_force_y@ == old(self).net_force_y@.update(
                idx as int,
                (old(self).net_force_y@[idx as int] + force.y) as i128,
            ),
            final(self).pos_x == old(self).pos_x,
            final(self).pos_y == old(self).pos_y,
            final(self).vel_x == old(self).vel_x,
            final(self).vel_y == old(self).vel_y,
            final(self).mass == old(self).mass,
            final(self).radius == old(self).radius,
            final(self).indices == old(self).indices,
            final(self).count == old(self).count,
    {
        let fx = self.net_force_x[idx] + force.x;
        let fy = self.net_force_y[idx] + force.y;
        self.net_force_x[idx] = fx;
        self.net_force_y[idx] = fy;
    }

    /// Advances particle `i` by one step of semi-implicit Euler.
    fn integrate_slot(&mut self, i: usize)
        requires
            old(self).wf(),
            i < old(self).count,
            old(self).slot_fits(i as int),
        ensures
            final(self).wf(),
            final(self).vel_x@ == old(self).vel_x@.update(
                i as int,
                stepped_velocity(
                    old(self).vel_x@[i as int] as int,
                    old(self).net_force_x@[i as int] as int,
                    old(self).mass@[i as int] as int,
                ) as i64,
            ),
            final(self).vel_y@ == old(self).vel_y@.update(
                i as int,
                stepped_velocity(
                    old(self).vel_y@[i as int] as int,
                    old(self).net_force_y@[i as int] as int,
                    old(self).mass@[i as int] as int,
                ) as i64,
            ),
            final(self).pos_x@ == old(self).pos_x@.update(
                i as int,
                stepped_position(
                    old(self).pos_x@[i as int] as int,
                    old(self).vel_x@[i as int] as int,
                    old(self).net_force_x@[i as int] as int,
                    old(self).mass@[i as int] as int,
                ) as i64,
            ),
            final(self).pos_y@ == old(self).pos_y@.update(
                i as int,
                stepped_position(
                    old(self).pos_y@[i as int] as int,
                    old(self).vel_y@[i as int] as int,
                    old(self).net_force_y@[i as int] as int,
                    old(self).mass@[i as int] as int,
                ) as i64,
            ),
            final(self).net_force_x == old(self).net_force_x,
            final(self).net_force_y == old(self).net_force_y,
            final(self).mass == old(self).mass,
            final(self).radius == old(self).radius,
            final(self).indices == old(self).indices,
            final(self).count == old(self).count,
    {
        let m = self.mass[i] as i128;
        let ax = div_toward_zero(self.net_force_x[i], m);
        let ay = div_toward_zero(self.net_force_y[i], m);
        let vx = (self.vel_x[i] as i128 + ax) as i64;
        let vy = (self.vel_y[i] as i128 + ay) as i64;
        let px = (self.pos_x[i] as i128 + vx as i128) as i64;
        let py = (self.pos_y[i] as i128 + vy as i128) as i64;
        self.vel_x[i] = vx;
        self.vel_y[i] = vy;
        self.pos_x[i] = px;
        self.pos_y[i] = py;
    }

    /// Whether `apply_forces_simd` can run without leaving the range of `i64`.
    pub fn can_apply_forces(&self) -> (r: bool)
        requires
            self.wf(),
        ensures
            r == self.step_fits(),
    {
        let mut i: usize = 0;
        while i < self.count
            invariant
                self.wf(),
                i <= self.count,
                forall|k: int| 0 <= k < i ==> #[trigger] self.slot_fits(k),
            decreases self.count - i,
        {
            let m = self.mass[i] as i128;
            let ax = div_toward_zero(self.net_force_x[i], m);
            let ay = div_toward_zero(self.net_force_y[i], m);
            // an acceleration this large leaves the range of `i64` whatever the velocity
            if ax < -0x1_0000_0000_0000_0000i128 || ax > 0x1_0000_0000_0000_0000i128 || ay
                < -0x1_0000_0000_0000_0000i128 || ay > 0x1_0000_0000_0000_0000i128 {
                assert(!self.slot_fits(i as int));
                return false;
            }
            let vx = self.vel_x[i] as i128 + ax;
            let vy = self.vel_y[i] as i128 + ay;
            if vx < i64::MIN as i128 || vx > i64::MAX as i128 || vy < i64::MIN as i128 || vy
                > i64::MAX as i128 {
                assert(!self.slot_fits(i as int));
                return false;
            }
            let px = self.pos_x[i] as i128 + vx;
            let py = self.pos_y[i] as i128 + vy;
            if px < i64::MIN as i128 || px > i64::MAX as i128 || py < i64::MIN as i128 || py
                > i64::MAX as i128 {
                assert(!self.slot_fits(i as int));
                return false;
            }
            i = i + 1;
        }
        true
    }

    /// One unit time step for every particle: `v += f / m`, then `p += v`.
    /// Runs in fixed-width batches followed by the remainder; both apply the
    /// same per-particle update.
    pub fn apply_forces_simd(&mut self)
        requires
            old(self).wf(),
            old(self).step_fits(),
        ensures
            final(self).wf(),
            final(self).count == old(self).count,
            forall|i: int|
                0 <= i < old(self).count ==> #[trigger] final(self).integrated_from(*old(self), i),
            final(self).net_force_x == old(self).net_force_x,
            final(self).net_force_y == old(self).net_force_y,
            final(self).mass == old(self).mass,
            final(self).radius == old(self).radius,
            final(self).indices == old(self).indices,
    {
        let mut i: usize = 0;
        while i + LANES <= self.count
            invariant
                self.wf(),
                i <= self.count,
                self.count == old(self).count,
                self.net_force_x == old(self).net_force_x,
                self.net_force_y == old(self).net_force_y,
                self.mass == old(self).mass,
                self.radius == old(self).radius,
                self.indices == old(self).indices,
                old(self).wf(),
                old(self).step_fits(),
                forall|k: int|
                    0 <= k < i ==> #[trigger] self.integrated_from(*old(self), k),
                forall|k: int|
                    i <= k < self.count ==> #[trigger] self.untouched_from(*old(self), k),
            decreases self.count - i,
        {
            let end = i + LANES;
            while i < end
                invariant
                    self.wf(),
                    i <= end <= self.count,
                    self.count == old(self).count,
                    self.net_force_x == old(self).net_force_x,
                    self.net_force_y == old(self).net_force_y,
                    self.mass == old(self).mass,
                    self.radius == old(self).radius,
                    self.indices == old(self).indices,
                    old(self).wf(),
                    old(self).step_fits(),
                    forall|k: int|
                        0 <= k < i ==> #[trigger] self.integrated_from(*old(self), k),
                    forall|k: int|
                        i <= k < self.count ==> #[trigger] self.untouched_from(*old(self), k),
                decreases end - i,
            {
                self.integrate_one_of(i, Ghost(*old(self)));
                i = i + 1;
            }
        }
        while i < self.count
            invariant
                self.wf(),
                i <= self.count,
                self.count == old(self).count,
                self.net_force_x == old(self).net_force_x,
                self.net_force_y == old(self).net_force_y,
                self.mass == old(self).mass,
                self.radius == old(self).radius,
                self.indices == old(self).indices,
                old(self).wf(),
                old(self).step_fits(),
                forall|k: int|
                    0 <= k < i ==> #[trigger] self.integrated_from(*old(self), k),
                forall|k: int|
                    i <= k < self.count ==> #[trigger] self.untouched_from(*old(self), k),
            decreases self.count - i,
        {
            self.integrate_one_of(i, Ghost(*old(self)));
            i = i + 1;
        }
        assert forall|k: int| 0 <= k < old(self).count implies #[trigger] self.integrated_from(
            *old(self),
            k,
        ) by {}
    }

    /// Slot `k` holds the result of one step applied to `start`.
    pub open spec fn integrated_from(&self, start: ParticleSystem, k: int) -> bool {
        &&& self.vel_x@[k] == stepped_velocity(
            start.vel_x@[k] as int,
            start.net_force_x@[k] as int,
            start.mass@[k] as int,
        )
        &&& self.vel_y@[k] == stepped_velocity(
            start.vel_y@[k] as int,
            start.net_force_y@[k] as int,
            start.mass@[k] as int,
        )
        &&& self.pos_x@[k] == stepped_position(
            start.pos_x@[k] as int,
            start.vel_x@[k] as int,
            start.net_force_x@[k] as int,
            start.mass@[k] as int,
        )
        &&& self.pos_y@[k] == stepped_position(
            start.pos_y@[k] as int,
            start.vel_y@[k] as int,
            start.net_force_y@[k] as int,
            start.mass@[k] as int,
        )
    }

    /// Slot `k` still holds the position and velocity of `start`.
    pub open spec fn untouched_from(&self, start: ParticleSystem, k: int) -> bool {
        &&& self.vel_x@[k] == start.vel_x@[k]
        &&& self.vel_y@[k] == start.vel_y@[k]
        &&& self.pos_x@[k] == start.pos_x@[k]
        &&& self.pos_y@[k] == start.pos_y@[k]
    }

    /// Integrates slot `i` while the slots from `i` on still hold `start`'s state.
    fn integrate_one_of(&mut self, i: usize, Ghost(start): Ghost<ParticleSystem>)
        requires
            old(self).wf(),
            i < old(self).count,
            start.wf(),
            start.step_fits(),
            old(self).count == start.count,
            old(self).net_force_x == start.net_force_x,
            old(self).net_force_y == start.net_force_y,
            old(self).mass == start.mass,
            forall|k: int| 0 <= k < i ==> #[trigger] old(self).integrated_from(start, k),
            forall|k: int| i <= k < old(self).count ==> #[trigger] old(self).untouched_from(start, k),
        ensures
            final(self).wf(),
            final(self).count == old(self).count,
            final(self).net_force_x == old(self).net_force_x,
            final(self).net_force_y == old(self).net_force_y,
            final(self).mass == old(self).mass,
            final(self).radius == old(self).radius,
            final(self).indices == old(self).indices,
            forall|k: int| 0 <= k <= i ==> #[trigger] final(self).integrated_from(start, k),
            forall|k: int|
                i < k < final(self).count ==> #[trigger] final(self).untouched_from(start, k),
    {
        assert(old(self).untouched_from(start, i as int));
        assert(start.slot_fits(i as int));
        self.integrate_slot(i);
        assert forall|k: int| 0 <= k <= i implies #[trigger] self.integrated_from(start, k) by {
            if k < i {
                assert(old(self).integrated_from(start, k));
            }
        }
        assert forall|k: int| i < k < self.count implies #[trigger] self.untouched_from(start, k) by {
            assert(old(self).untouched_from(start, k));
        }
    }

    /// Exchanges the whole rows in slots `a` and `b`.
    fn swap_rows(&mut self, a: usize, b: usize)
        requires
            old(self).wf(),
            a < old(self).count,
            b < old(self).count,
        ensures
            final(self).wf(),
            final(self).count == old(self).count,
            final(self).rows() == old(self).rows().update(a as int, old(self).rows()[b as int]).update(
                b as int,
                old(self).rows()[a as int],
            ),
            final(self).mass@ == old(self).mass@.update(a as int, old(self).mass@[b as int]).update(
                b as int,
                old(self).mass@[a as int],
            ),
    {
        let t = self.pos_x[a];
        self.pos_x[a] = self.pos_x[b];
        self.pos_x[b] = t;
        let t = self.pos_y[a];
        self.pos_y[a] = self.pos_y[b];
        self.pos_y[b] = t;
        let t = self.vel_x[a];
        self.vel_x[a] = self.vel_x[b];
        self.vel_x[b] = t;
        let t = self.vel_y[a];
        self.vel_y[a] = self.vel_y[b];
        self.vel_y[b] = t;
        let t = self.net_force_x[a];
        self.net_force_x[a] = self.net_force_x[b];
        self.net_force_x[b] = t;
        let t = self.net_force_y[a];
        self.net_force_y[a] = self.net_force_y[b];
        self.net_force_y[b] = t;
        let t = self.mass[a];
        self.mass[a] = self.mass[b];
        self.mass[b] = t;
        let t = self.radius[a];
        self.radius[a] = self.radius[b];
        self.radius[b] = t;
        let t = self.indices[a];
        self.indices[a] = self.indices[b];
        self.indices[b] = t;
        assert(self.rows() =~= old(self).rows().update(a as int, old(self).rows()[b as int]).update(
            b as int,
            old(self).rows()[a as int],
        ));
    }

    /// Reorders the slots by ascending mass, moving each particle's row as a unit.
    pub fn sort_by_mass(&mut self)
        requires
            old(self).wf(),
        ensures
            final(self).wf(),
            final(self).count == old(self).count,
            final(self).rows().to_multiset() == old(self).rows().to_multiset(),
            forall|i: int, j: int|
                0 <= i < j < final(self).count ==> final(self).mass@[i] <= final(self).mass@[j],
    {
        broadcast use vstd::seq_lib::group_to_multiset_ensures;

        let mut i: usize = 0;
        while i < self.count
            invariant
                self.wf(),
                self.count == old(self).count,
                i <= self.count,
                self.rows().to_multiset() == old(self).rows().to_multiset(),
                forall|a: int, b: int| 0 <= a < b < i ==> self.mass@[a] <= self.mass@[b],
            decreases self.count - i,
        {
            let mut j: usize = i;
            while j > 0 && self.mass[j - 1] > self.mass[j]
                invariant
                    self.wf(),
                    self.count == old(self).count,
                    i < self.count,
                    j <= i,
                    self.rows().to_multiset() == old(self).rows().to_multiset(),
                    forall|a: int, b: int| 0 <= a < b < j ==> self.mass@[a] <= self.mass@[b],
                    forall|a: int, b: int| j <= a < b <= i ==> self.mass@[a] <= self.mass@[b],
                    forall|a: int, b: int|
                        0 <= a < j && j < b <= i ==> self.mass@[a] <= self.mass@[b],
                decreases j,
            {
                let ghost before = self.rows();
                self.swap_rows(j - 1, j);
                proof {
                    let r1 = before.update(j - 1, before[j as int]);
                    assert(before.contains(before[j - 1]));
                    assert(before.contains(before[j as int]));
                    assert(r1[j as int] == before[j as int]);
                    vstd::seq_lib::to_multiset_update(before, j - 1, before[j as int]);
                    vstd::seq_lib::to_multiset_update(r1, j as int, before[j - 1]);
                    let m = before.to_multiset();
                    let bj = before[j as int];
                    let bi = before[j - 1];
                    before.to_multiset_ensures();
                    assert(m.count(bi) > 0);
                    assert(m.count(bj) > 0);
                    assert(r1.to_multiset() == m.insert(bj).remove(bi));
                    assert(self.rows() == r1.update(j as int, bi));
                    assert(self.rows().to_multiset() == m.insert(bj).remove(bi).insert(bi).remove(bj));
                    assert forall|x: Row| #[trigger] self.rows().to_multiset().count(x) == m.count(
                        x,
                    ) by {
                        if x == bi && x == bj {
                        } else if x == bi {
                        } else if x == bj {
                        } else {
                        }
                    }
                    assert(self.rows().to_multiset() =~= before.to_multiset());
                }
                j = j - 1;
            }
            proof {
                assert forall|a: int, b: int| 0 <= a < b < i + 1 implies self.mass@[a]
                    <= self.mass@[b] by {
                    if b == j && a < j {
                        assert(self.mass@[a] <= self.mass@[j - 1]);
                    }
                }
            }
            i = i + 1;
        }
    }

    /// Length of slot `idx`'s velocity, rounded down.
    pub fn get_velocity_norm(&self, idx: usize) -> (r: u64)
        requires
            self.wf(),
            idx < self.count,
        ensures
            r == self.velocity_norm(idx as int),
    {
        let vx = self.vel_x[idx] as i128;
        let vy = self.vel_y[idx] as i128;
        assert(0 <= vx * vx <= 0x4000_0000_0000_0000_0000_0000_0000_0000) by (nonlinear_arith)
            requires
                -0x8000_0000_0000_0000 <= vx <= 0x7fff_ffff_ffff_ffff,
        ;
        assert(0 <= vy * vy <= 0x4000_0000_0000_0000_0000_0000_0000_0000) by (nonlinear_arith)
            requires
                -0x8000_0000_0000_0000 <= vy <= 0x7fff_ffff_ffff_ffff,
        ;
        let sq = (vx * vx) as u128 + (vy * vy) as u128;
        isqrt(sq)
    }

    pub open spec fn velocity_norm(&self, i: int) -> int {
        floor_sqrt(
            self.vel_x@[i] as int * self.vel_x@[i] as int + self.vel_y@[i] as int
                * self.vel_y@[i] as int,
        )
    }

    /// The largest velocity length over all particles; zero for an empty store.
    /// The field measured is the velocity, not the net force.
    pub fn find_max_velocity_norm(&self) -> (r: u64)
        requires
            self.wf(),
        ensures
            forall|i: int| 0 <= i < self.count ==> self.velocity_norm(i) <= r,
            self.count > 0 ==> exists|i: int| 0 <= i < self.count && self.velocity_norm(i) == r,
            self.count == 0 ==> r == 0,
    {
        let mut best: u64 = 0;
        let mut i: usize = 0;
        while i < self.count
            invariant
                self.wf(),
                i <= self.count,
                forall|k: int| 0 <= k < i ==> self.velocity_norm(k) <= best,
                i > 0 ==> exists|k: int| 0 <= k < i && self.velocity_norm(k) == best,
                i == 0 ==> best == 0,
            decreases self.count - i,
        {
            let n = self.get_velocity_norm(i);
            if i == 0 || n > best {
                best = n;
            }
            i = i + 1;
        }
        best
    }

    /// The smallest velocity length over all particles; zero for an empty store.
    /// The field measured is the velocity, not the net force.
    pub fn find_min_velocity_norm(&self) -> (r: u64)
        requires
            self.wf(),
        ensures
            forall|i: int| 0 <= i < self.count ==> r <= self.velocity_norm(i),
            self.count > 0 ==> exists|i: int| 0 <= i < self.count && self.velocity_norm(i) == r,
            self.count == 0 ==> r == 0,
    {
        let mut best: u64 = 0;
        let mut i: usize = 0;
        while i < self.count
            invariant
                self.wf(),
                i <= self.count,
                forall|k: int| 0 <= k < i ==> best <= self.velocity_norm(k),
                i > 0 ==> exists|k: int| 0 <= k < i && self.velocity_norm(k) == best,
                i == 0 ==> best == 0,
            decreases self.count - i,
        {
            let n = self.get_velocity_norm(i);
            if i == 0 || n < best {
                best = n;
            }
            i = i + 1;
        }
        best
    }

    /// Distance from slot `idx` to `object`, rounded down.
    pub fn get_distance_to(&self, idx: usize, object: &Vec2) -> (r: u64)
        requires
            self.wf(),
            idx < self.count,
            (object.x - self.pos_x@[idx as int]) * (object.x - self.pos_x@[idx as int]) + (object.y
                - self.pos_y@[idx as int]) * (object.y - self.pos_y@[idx as int]) <= u128::MAX,
        ensures
            r == floor_sqrt(
                (object.x - self.pos_x@[idx as int]) * (object.x - self.pos_x@[idx as int]) + (
                object.y - self.pos_y@[idx as int]) * (object.y - self.pos_y@[idx as int]),
            ),
    {
        let dx = object.x as i128 - self.pos_x[idx] as i128;
        let dy = object.y as i128 - self.pos_y[idx] as i128;
        let ax: u128 = if dx >= 0 { dx as u128 } else { (-dx) as u128 };
        let ay: u128 = if dy >= 0 { dy as u128 } else { (-dy) as u128 };
        assert(ax * ax == dx * dx && ay * ay == dy * dy) by (nonlinear_arith)
            requires
                ax == dx || ax == -dx,
                ay == dy || ay == -dy,
        ;
        assert(0 <= ax * ax && 0 <= ay * ay) by (nonlinear_arith);
        isqrt(ax * ax + ay * ay)
    }

    /// The attraction exerted on slot `idx1` by slot `idx2`.
    pub fn get_attraction_force(&self, idx1: usize, idx2: usize, params: &ForceParams) -> (r:
        Force2)
        requires
            self.wf(),
            params.wf(),
            idx1 < self.count,
            idx2 < self.count,
            -MAX_SPAN <= self.pos_x@[idx2 as int] - self.pos_x@[idx1 as int] <= MAX_SPAN,
            -MAX_SPAN <= self.pos_y@[idx2 as int] - self.pos_y@[idx1 as int] <= MAX_SPAN,
        ensures
            (r.x as int, r.y as int) == pair_force_spec(
                *params,
                self.mass@[idx1 as int] as int,
                self.mass@[idx2 as int] as int,
                self.pos_x@[idx2 as int] - self.pos_x@[idx1 as int],
                self.pos_y@[idx2 as int] - self.pos_y@[idx1 as int],
            ),
    {
        let dx = (self.pos_x[idx2] as i128 - self.pos_x[idx1] as i128) as i64;
        let dy = (self.pos_y[idx2] as i128 - self.pos_y[idx1] as i128) as i64;
        pair_force(params, self.mass[idx1], self.mass[idx2], dx, dy)
    }
}

} // verus!
