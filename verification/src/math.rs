//! Stateless interpolation routines.
//!
//! All routines take the interpolation fraction `t` as a pair `num / den`
//! of a numerator and a positive denominator, so results are exact where
//! the division is exact. Values are fixed point: `1000` is one unit.

use vstd::arithmetic::div_mod::{lemma_div_basics, lemma_div_is_ordered, lemma_div_multiples_vanish};
use vstd::arithmetic::mul::lemma_mul_inequality;
use vstd::prelude::*;

verus! {

/// One full turn for angles held in thousandths of a degree.
pub const FULL_TURN_MILLI_DEGREES: i64 = 360_000;

/// One full turn for angles held in thousandths of a radian
/// (two pi, rounded down to the fixed-point grid).
pub const FULL_TURN_MILLI_RADIANS: i64 = 6_283;

/// `a + (b - a) * (num / den)`, rounded toward `a`.
pub open spec fn lerp_spec(a: int, b: int, num: int, den: int) -> int {
    if b >= a {
        a + (b - a) * num / den
    } else {
        a - (a - b) * num / den
    }
}

/// Shortest-path interpolation across a periodic domain of size `full_turn`:
/// when the direct difference exceeds half a turn, the end value is shifted
/// by a full turn before interpolating, and the result is brought back into
/// the canonical range.
pub open spec fn wrap_angle_lerp_spec(a: int, b: int, num: int, den: int, full_turn: int) -> int {
    let diff = b - a;
    if diff < -(full_turn / 2) {
        let raw = lerp_spec(a, b + full_turn, num, den);
        if raw >= full_turn {
            raw - full_turn
        } else {
            raw
        }
    } else if diff > full_turn / 2 {
        let raw = lerp_spec(a, b - full_turn, num, den);
        if raw < 0 {
            raw + full_turn
        } else {
            raw
        }
    } else {
        lerp_spec(a, b, num, den)
    }
}

proof fn lemma_scaled_fraction_bounds(d: int, num: int, den: int)
    requires
        0 <= d < 0x1_0000_0000_0000_0000,
        0 <= num <= den,
        1 <= den < 0x1_0000_0000_0000_0000,
    ensures
        d * num < 0x1_0000_0000_0000_0000_0000_0000_0000_0000,
        0 <= d * num / den <= d,
        num == 0 ==> d * num / den == 0,
        num == den ==> d * num / den == d,
{
    lemma_mul_inequality(num, den, d);
    lemma_div_is_ordered(d * num, d * den, den);
    lemma_div_multiples_vanish(d, den);
    lemma_mul_inequality(0, d, num);
    lemma_div_is_ordered(0, d * num, den);
    lemma_div_basics(den);
    lemma_mul_inequality(d, 0xFFFF_FFFF_FFFF_FFFF, num);
    lemma_mul_inequality(num, 0xFFFF_FFFF_FFFF_FFFF, 0xFFFF_FFFF_FFFF_FFFF);
}

/// Interpolation between equal values is that value, at every
/// fraction, extrapolating ones included.
pub proof fn lemma_lerp_spec_constant(a: int, num: int, den: int)
    requires
        1 <= den,
    ensures
        lerp_spec(a, a, num, den) == a,
{
    lemma_div_basics(den);
}

/// Interpolating at the ends of the fraction is exact: at zero the
/// result is the start value, at one the end value.
pub proof fn lemma_lerp_spec_endpoints(a: int, b: int, den: int)
    requires
        1 <= den,
    ensures
        lerp_spec(a, b, 0, den) == a,
        lerp_spec(a, b, den, den) == b,
{
    lemma_div_basics(den);
    if b >= a {
        lemma_div_multiples_vanish(b - a, den);
    } else {
        lemma_div_multiples_vanish(a - b, den);
    }
}

/// Wrapping interpolation reproduces its endpoints exactly: the start
/// angle at fraction zero, the end angle at fraction one, for any
/// canonical pair of angles.
pub proof fn lemma_wrap_spec_endpoints(a: int, b: int, den: int, full_turn: int)
    requires
        1 <= den,
        1 <= full_turn,
        0 <= a < full_turn,
        0 <= b < full_turn,
    ensures
        wrap_angle_lerp_spec(a, b, 0, den, full_turn) == a,
        wrap_angle_lerp_spec(a, b, den, den, full_turn) == b,
{
    let diff = b - a;
    if diff < -(full_turn / 2) {
        lemma_lerp_spec_endpoints(a, b + full_turn, den);
    } else if diff > full_turn / 2 {
        lemma_lerp_spec_endpoints(a, b - full_turn, den);
    } else {
        lemma_lerp_spec_endpoints(a, b, den);
    }
}

/// Linear interpolation between two fixed-point values: the result
/// moves from `a` (at `num == 0`) to `b` (at `num == den`), exactly
/// as `lerp_spec` states, never leaving the interval between the two.
/// An extrapolating fraction above one is passed through unclamped,
/// admitted whenever its exact result fits the fixed-point domain.
pub fn lerp(a: i64, b: i64, num: u64, den: u64) -> (r: i64)
    requires
        1 <= den,
        num <= den || (i64::MIN <= lerp_spec(a as int, b as int, num as int, den as int)
            <= i64::MAX),
    ensures
        r == lerp_spec(a as int, b as int, num as int, den as int),
        num <= den && a <= b ==> a <= r <= b,
        num <= den && b <= a ==> b <= r <= a,
        num == 0 ==> r == a,
        num == den ==> r == b,
        a == b ==> r == a,
{
    if b >= a {
        let d: u128 = (b as i128 - a as i128) as u128;
        proof {
            lemma_mul_inequality(d as int, 0xFFFF_FFFF_FFFF_FFFF, num as int);
            lemma_mul_inequality(num as int, 0xFFFF_FFFF_FFFF_FFFF, 0xFFFF_FFFF_FFFF_FFFF);
            lemma_mul_inequality(0, d as int, num as int);
            lemma_div_is_ordered(0, (d as int) * (num as int), den as int);
            lemma_div_basics(den as int);
            if num <= den {
                lemma_scaled_fraction_bounds(d as int, num as int, den as int);
            }
        }
        let q: u128 = d * (num as u128) / (den as u128);
        (a as i128 + q as i128) as i64
    } else {
        let d: u128 = (a as i128 - b as i128) as u128;
        proof {
            lemma_mul_inequality(d as int, 0xFFFF_FFFF_FFFF_FFFF, num as int);
            lemma_mul_inequality(num as int, 0xFFFF_FFFF_FFFF_FFFF, 0xFFFF_FFFF_FFFF_FFFF);
            lemma_mul_inequality(0, d as int, num as int);
            lemma_div_is_ordered(0, (d as int) * (num as int), den as int);
            lemma_div_basics(den as int);
            if num <= den {
                lemma_scaled_fraction_bounds(d as int, num as int, den as int);
            }
        }
        let q: u128 = d * (num as u128) / (den as u128);
        (a as i128 - q as i128) as i64
    }
}

/// Shortest-path angle interpolation over a canonical range
/// `[0, full_turn)`; the result stays canonical. The fraction is
/// confined to `[0, 1]`: an extrapolated angle has no canonical form
/// on the fixed-point grid.
pub fn wrap_angle_lerp(a: i64, b: i64, num: u64, den: u64, full_turn: i64) -> (r: i64)
    requires
        1 <= den,
        num <= den,
        1 <= full_turn <= 0x4000_0000_0000_0000,
        0 <= a < full_turn,
        0 <= b < full_turn,
    ensures
        r == wrap_angle_lerp_spec(
            a as int,
            b as int,
            num as int,
            den as int,
            full_turn as int,
        ),
        0 <= r < full_turn,
        num == 0 ==> r == a,
        num == den ==> r == b,
{
    let half: i64 = ((full_turn as u64) / 2) as i64;
    let diff: i64 = b - a;
    if diff < -half {
        let raw: i64 = lerp(a, b + full_turn, num, den);
        if raw >= full_turn {
            raw - full_turn
        } else {
            raw
        }
    } else if diff > half {
        let raw: i64 = lerp(a, b - full_turn, num, den);
        if raw < 0 {
            raw + full_turn
        } else {
            raw
        }
    } else {
        lerp(a, b, num, den)
    }
}

/// Wrapping interpolation for angles in thousandths of a degree;
/// angles and fraction are confined to the canonical domain, as in
/// `wrap_angle_lerp`.
pub fn degree_lerp(start: i64, end: i64, num: u64, den: u64) -> (r: i64)
    requires
        1 <= den,
        num <= den,
        0 <= start < FULL_TURN_MILLI_DEGREES,
        0 <= end < FULL_TURN_MILLI_DEGREES,
    ensures
        r == wrap_angle_lerp_spec(
            start as int,
            end as int,
            num as int,
            den as int,
            FULL_TURN_MILLI_DEGREES as int,
        ),
        0 <= r < FULL_TURN_MILLI_DEGREES,
        num == 0 ==> r == start,
        num == den ==> r == end,
{
    wrap_angle_lerp(start, end, num, den, FULL_TURN_MILLI_DEGREES)
}

/// Wrapping interpolation for angles in thousandths of a radian;
/// angles and fraction are confined to the canonical domain, as in
/// `wrap_angle_lerp`.
pub fn radian_lerp(start: i64, end: i64, num: u64, den: u64) -> (r: i64)
    requires
        1 <= den,
        num <= den,
        0 <= start < FULL_TURN_MILLI_RADIANS,
        0 <= end < FULL_TURN_MILLI_RADIANS,
    ensures
        r == wrap_angle_lerp_spec(
            start as int,
            end as int,
            num as int,
            den as int,
            FULL_TURN_MILLI_RADIANS as int,
        ),
        0 <= r < FULL_TURN_MILLI_RADIANS,
        num == 0 ==> r == start,
        num == den ==> r == end,
{
    wrap_angle_lerp(start, end, num, den, FULL_TURN_MILLI_RADIANS)
}

/// Interpolated timestamp between two times, in milliseconds; the
/// fraction is confined to `[0, 1]`, keeping the result between the
/// two times.
pub fn time_lerp(start: u64, end: u64, num: u64, den: u64) -> (r: u64)
    requires
        start <= end,
        1 <= den,
        num <= den,
    ensures
        r == start + (end - start) * (num as int) / (den as int),
        start <= r <= end,
        num == 0 ==> r == start,
        num == den ==> r == end,
{
    let d: u128 = (end - start) as u128;
    proof {
        lemma_scaled_fraction_bounds(d as int, num as int, den as int);
    }
    let q: u128 = d * (num as u128) / (den as u128);
    start + (q as u64)
}

/// The fixed-point value standing for one: a quaternion of squared
/// norm `ROTATION_UNIT * ROTATION_UNIT` is a unit quaternion.
pub const ROTATION_UNIT: i64 = 1_000;

/// Magnitude bound under which the rotation arithmetic is carried out
/// exactly; any plausible quaternion component lies far below it.
pub const QUAT_COMPONENT_LIMIT: i64 = 0x4000_0000_0000_0000;

/// Whether a quaternion component lies within the exact-arithmetic
/// range.
pub open spec fn quat_in_range(x: int) -> bool {
    -(QUAT_COMPONENT_LIMIT as int) <= x <= QUAT_COMPONENT_LIMIT as int
}

proof fn lemma_product_bound(x: int, y: int, b: int)
    requires
        -b <= x <= b,
        -b <= y <= b,
        0 <= b,
    ensures
        -(b * b) <= x * y <= b * b,
{
    assert(-(b * b) <= x * y <= b * b) by (nonlinear_arith)
        requires
            -b <= x <= b,
            -b <= y <= b,
            0 <= b,
    ;
}

/// The integer square root: the largest `r` with `r * r <= n`.
pub open spec fn isqrt_spec(n: int) -> int
    decreases n,
{
    if n <= 0 {
        0
    } else {
        let p = isqrt_spec(n - 1);
        if (p + 1) * (p + 1) <= n {
            p + 1
        } else {
            p
        }
    }
}

pub proof fn lemma_isqrt_spec_bounds(n: int)
    requires
        0 <= n,
    ensures
        0 <= isqrt_spec(n),
        isqrt_spec(n) * isqrt_spec(n) <= n,
        n < (isqrt_spec(n) + 1) * (isqrt_spec(n) + 1),
    decreases n,
{
    if n == 0 {
    } else {
        lemma_isqrt_spec_bounds(n - 1);
        let p = isqrt_spec(n - 1);
        if (p + 1) * (p + 1) <= n {
            assert(n == (p + 1) * (p + 1));
            assert((p + 1) * (p + 1) < (p + 2) * (p + 2)) by (nonlinear_arith)
                requires
                    0 <= p,
            ;
        }
    }
}

pub proof fn lemma_isqrt_unique(n: int, r: int)
    requires
        0 <= r,
        r * r <= n,
        n < (r + 1) * (r + 1),
    ensures
        isqrt_spec(n) == r,
{
    lemma_isqrt_spec_bounds(n);
    let s = isqrt_spec(n);
    assert(s == r) by (nonlinear_arith)
        requires
            0 <= s,
            0 <= r,
            s * s <= n,
            n < (s + 1) * (s + 1),
            r * r <= n,
            n < (r + 1) * (r + 1),
    ;
}

/// The integer square root, by binary search.
pub fn isqrt(n: u128) -> (r: u64)
    requires
        n <= 0x4000_0000_0000_0000_0000_0000_0000_0000,
    ensures
        r as int == isqrt_spec(n as int),
        (r as int) * (r as int) <= n as int,
        (n as int) < ((r as int) + 1) * ((r as int) + 1),
{
    let mut lo: u64 = 0;
    let mut hi: u64 = 0x8000_0000_0000_0000;
    while lo < hi
        invariant
            lo <= hi <= 0x8000_0000_0000_0000,
            (lo as int) * (lo as int) <= n as int,
            (n as int) < ((hi as int) + 1) * ((hi as int) + 1),
        decreases hi - lo,
    {
        let mid: u64 = lo + (hi - lo + 1) / 2;
        proof {
            lemma_mul_inequality(mid as int, 0x8000_0000_0000_0000, mid as int);
            lemma_mul_inequality(mid as int, 0x8000_0000_0000_0000, 0x8000_0000_0000_0000);
        }
        let sq: u128 = (mid as u128) * (mid as u128);
        if sq <= n {
            lo = mid;
        } else {
            hi = mid - 1;
        }
    }
    proof {
        lemma_isqrt_unique(n as int, lo as int);
    }
    lo
}

/// One component of a quaternion scaled onto the unit sphere, rounded
/// toward zero.
pub open spec fn scale_toward_zero(m: int, norm: int) -> int {
    if m >= 0 {
        m * (ROTATION_UNIT as int) / norm
    } else {
        -((-m) * (ROTATION_UNIT as int) / norm)
    }
}

fn scale_component(m: i64, norm: u64) -> (r: i64)
    requires
        1 <= norm,
        quat_in_range(m as int),
        -(norm as int) <= m as int <= norm as int,
    ensures
        r as int == scale_toward_zero(m as int, norm as int),
        -ROTATION_UNIT <= r <= ROTATION_UNIT,
{
    if m >= 0 {
        proof {
            lemma_mul_inequality(m as int, norm as int, ROTATION_UNIT as int);
            lemma_div_is_ordered(
                (m as int) * (ROTATION_UNIT as int),
                (norm as int) * (ROTATION_UNIT as int),
                norm as int,
            );
            lemma_div_multiples_vanish(ROTATION_UNIT as int, norm as int);
            lemma_mul_inequality(0, m as int, ROTATION_UNIT as int);
            lemma_div_is_ordered(0, (m as int) * (ROTATION_UNIT as int), norm as int);
            lemma_div_basics(norm as int);
        }
        ((m as u128) * 1000 / (norm as u128)) as i64
    } else {
        let mag: u64 = (-m) as u64;
        proof {
            lemma_mul_inequality(mag as int, norm as int, ROTATION_UNIT as int);
            lemma_div_is_ordered(
                (mag as int) * (ROTATION_UNIT as int),
                (norm as int) * (ROTATION_UNIT as int),
                norm as int,
            );
            lemma_div_multiples_vanish(ROTATION_UNIT as int, norm as int);
            lemma_mul_inequality(0, mag as int, ROTATION_UNIT as int);
            lemma_div_is_ordered(0, (mag as int) * (ROTATION_UNIT as int), norm as int);
            lemma_div_basics(norm as int);
        }
        -(((mag as u128) * 1000 / (norm as u128)) as i64)
    }
}

/// A quaternion scaled onto the unit sphere of the fixed-point grid:
/// each component becomes `c * ROTATION_UNIT / norm` for the integer
/// square root `norm` of the squared length, rounded toward zero. The
/// zero quaternion, and components beyond the exact-arithmetic range,
/// are left as they are.
pub open spec fn rotation_normalize_spec(x: int, y: int, z: int, w: int) -> (int, int, int, int) {
    if quat_in_range(x) && quat_in_range(y) && quat_in_range(z) && quat_in_range(w) {
        let nsq = x * x + y * y + z * z + w * w;
        if nsq == 0 {
            (x, y, z, w)
        } else {
            let norm = isqrt_spec(nsq);
            (
                scale_toward_zero(x, norm),
                scale_toward_zero(y, norm),
                scale_toward_zero(z, norm),
                scale_toward_zero(w, norm),
            )
        }
    } else {
        (x, y, z, w)
    }
}

/// Shortest-arc rotation interpolation on the fixed-point grid: when
/// the quaternions' dot product is negative the end quaternion is
/// negated (the same rotation, on the near side of the sphere), the
/// components are interpolated linearly, and the result is scaled back
/// onto the unit sphere. Components beyond the exact-arithmetic range
/// fall back to plain componentwise interpolation.
pub open spec fn rotation_lerp_spec(
    ox: int,
    oy: int,
    oz: int,
    ow: int,
    nx: int,
    ny: int,
    nz: int,
    nw: int,
    num: int,
    den: int,
) -> (int, int, int, int) {
    if quat_in_range(ox) && quat_in_range(oy) && quat_in_range(oz) && quat_in_range(ow)
        && quat_in_range(nx) && quat_in_range(ny) && quat_in_range(nz) && quat_in_range(nw) {
        let dot = ox * nx + oy * ny + oz * nz + ow * nw;
        let sx = if dot < 0 {
            -nx
        } else {
            nx
        };
        let sy = if dot < 0 {
            -ny
        } else {
            ny
        };
        let sz = if dot < 0 {
            -nz
        } else {
            nz
        };
        let sw = if dot < 0 {
            -nw
        } else {
            nw
        };
        rotation_normalize_spec(
            lerp_spec(ox, sx, num, den),
            lerp_spec(oy, sy, num, den),
            lerp_spec(oz, sz, num, den),
            lerp_spec(ow, sw, num, den),
        )
    } else {
        (
            lerp_spec(ox, nx, num, den),
            lerp_spec(oy, ny, num, den),
            lerp_spec(oz, nz, num, den),
            lerp_spec(ow, nw, num, den),
        )
    }
}

fn quat_component_ok(x: i64) -> (r: bool)
    ensures
        r == quat_in_range(x as int),
{
    -QUAT_COMPONENT_LIMIT <= x && x <= QUAT_COMPONENT_LIMIT
}

/// Shortest-arc rotation interpolation between two quaternions held
/// as four fixed-point components each, exactly as
/// `rotation_lerp_spec` states: sign-aligned, interpolated
/// componentwise, and scaled back onto the unit sphere.
pub fn rotation_lerp(
    ox: i64,
    oy: i64,
    oz: i64,
    ow: i64,
    nx: i64,
    ny: i64,
    nz: i64,
    nw: i64,
    num: u64,
    den: u64,
) -> (r: (i64, i64, i64, i64))
    requires
        1 <= den,
        num <= den,
    ensures
        (r.0 as int, r.1 as int, r.2 as int, r.3 as int) == rotation_lerp_spec(
            ox as int,
            oy as int,
            oz as int,
            ow as int,
            nx as int,
            ny as int,
            nz as int,
            nw as int,
            num as int,
            den as int,
        ),
{
    let in_range = quat_component_ok(ox) && quat_component_ok(oy) && quat_component_ok(oz)
        && quat_component_ok(ow) && quat_component_ok(nx) && quat_component_ok(ny)
        && quat_component_ok(nz) && quat_component_ok(nw);
    if in_range {
        proof {
            lemma_product_bound(ox as int, nx as int, QUAT_COMPONENT_LIMIT as int);
            lemma_product_bound(oy as int, ny as int, QUAT_COMPONENT_LIMIT as int);
            lemma_product_bound(oz as int, nz as int, QUAT_COMPONENT_LIMIT as int);
            lemma_product_bound(ow as int, nw as int, QUAT_COMPONENT_LIMIT as int);
        }
        let dot: i128 = (ox as i128) * (nx as i128) + (oy as i128) * (ny as i128) + (oz as i128)
            * (nz as i128) + (ow as i128) * (nw as i128);
        let (sx, sy, sz, sw): (i64, i64, i64, i64) = if dot < 0 {
            (-nx, -ny, -nz, -nw)
        } else {
            (nx, ny, nz, nw)
        };
        let mx: i64 = lerp(ox, sx, num, den);
        let my: i64 = lerp(oy, sy, num, den);
        let mz: i64 = lerp(oz, sz, num, den);
        let mw: i64 = lerp(ow, sw, num, den);
        proof {
            lemma_product_bound(mx as int, mx as int, QUAT_COMPONENT_LIMIT as int);
            lemma_product_bound(my as int, my as int, QUAT_COMPONENT_LIMIT as int);
            lemma_product_bound(mz as int, mz as int, QUAT_COMPONENT_LIMIT as int);
            lemma_product_bound(mw as int, mw as int, QUAT_COMPONENT_LIMIT as int);
            assert((mx as int) * (mx as int) >= 0) by (nonlinear_arith);
            assert((my as int) * (my as int) >= 0) by (nonlinear_arith);
            assert((mz as int) * (mz as int) >= 0) by (nonlinear_arith);
            assert((mw as int) * (mw as int) >= 0) by (nonlinear_arith);
        }
        let nsq: u128 = ((mx as i128) * (mx as i128) + (my as i128) * (my as i128) + (mz as i128)
            * (mz as i128) + (mw as i128) * (mw as i128)) as u128;
        if nsq == 0 {
            (mx, my, mz, mw)
        } else {
            let norm: u64 = isqrt(nsq);
            proof {
                assert(1 <= norm) by (nonlinear_arith)
                    requires
                        (nsq as int) < ((norm as int) + 1) * ((norm as int) + 1),
                        1 <= nsq as int,
                        0 <= norm as int,
                ;
                assert(-(norm as int) <= mx as int <= norm as int) by (nonlinear_arith)
                    requires
                        (mx as int) * (mx as int) <= nsq as int,
                        (nsq as int) < ((norm as int) + 1) * ((norm as int) + 1),
                        0 <= norm as int,
                ;
                assert(-(norm as int) <= my as int <= norm as int) by (nonlinear_arith)
                    requires
                        (my as int) * (my as int) <= nsq as int,
                        (nsq as int) < ((norm as int) + 1) * ((norm as int) + 1),
                        0 <= norm as int,
                ;
                assert(-(norm as int) <= mz as int <= norm as int) by (nonlinear_arith)
                    requires
                        (mz as int) * (mz as int) <= nsq as int,
                        (nsq as int) < ((norm as int) + 1) * ((norm as int) + 1),
                        0 <= norm as int,
                ;
                assert(-(norm as int) <= mw as int <= norm as int) by (nonlinear_arith)
                    requires
                        (mw as int) * (mw as int) <= nsq as int,
                        (nsq as int) < ((norm as int) + 1) * ((norm as int) + 1),
                        0 <= norm as int,
                ;
            }
            (
                scale_component(mx, norm),
                scale_component(my, norm),
                scale_component(mz, norm),
                scale_component(mw, norm),
            )
        }
    } else {
        (
            lerp(ox, nx, num, den),
            lerp(oy, ny, num, den),
            lerp(oz, nz, num, den),
            lerp(ow, nw, num, den),
        )
    }
}

/// Rotation interpolation reproduces its endpoints up to the
/// fixed-point grid: at fraction zero it yields the older quaternion
/// scaled onto the unit sphere, at fraction one the newer one — or
/// its negation, the same rotation, when the two lie on opposite
/// hemispheres.
pub proof fn lemma_rotation_lerp_endpoints(
    ox: int,
    oy: int,
    oz: int,
    ow: int,
    nx: int,
    ny: int,
    nz: int,
    nw: int,
    den: int,
)
    requires
        1 <= den,
        quat_in_range(ox) && quat_in_range(oy) && quat_in_range(oz) && quat_in_range(ow),
        quat_in_range(nx) && quat_in_range(ny) && quat_in_range(nz) && quat_in_range(nw),
    ensures
        rotation_lerp_spec(ox, oy, oz, ow, nx, ny, nz, nw, 0, den) == rotation_normalize_spec(
            ox,
            oy,
            oz,
            ow,
        ),
        ox * nx + oy * ny + oz * nz + ow * nw >= 0 ==> rotation_lerp_spec(
            ox,
            oy,
            oz,
            ow,
            nx,
            ny,
            nz,
            nw,
            den,
            den,
        ) == rotation_normalize_spec(nx, ny, nz, nw),
        ox * nx + oy * ny + oz * nz + ow * nw < 0 ==> rotation_lerp_spec(
            ox,
            oy,
            oz,
            ow,
            nx,
            ny,
            nz,
            nw,
            den,
            den,
        ) == rotation_normalize_spec(-nx, -ny, -nz, -nw),
{
    let dot = ox * nx + oy * ny + oz * nz + ow * nw;
    if dot < 0 {
        lemma_lerp_spec_endpoints(ox, -nx, den);
        lemma_lerp_spec_endpoints(oy, -ny, den);
        lemma_lerp_spec_endpoints(oz, -nz, den);
        lemma_lerp_spec_endpoints(ow, -nw, den);
    } else {
        lemma_lerp_spec_endpoints(ox, nx, den);
        lemma_lerp_spec_endpoints(oy, ny, den);
        lemma_lerp_spec_endpoints(oz, nz, den);
        lemma_lerp_spec_endpoints(ow, nw, den);
    }
}

} // verus!

