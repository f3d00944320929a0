//! Points, vectors and rectangles of the plane in fixed-point coordinates.

use crate::fixed::{
    abs_of, clamp, fx_add, fx_mul, fx_sub, in_range, is_root, isqrt, lemma_isqrt_eq,
    lemma_isqrt_is_root, lemma_isqrt_monotonic, lemma_quot_lower_bound, lemma_quot_sign, quot,
    saturate, spec_isqrt, wide_mul, LIMIT, SCALE,
};
use vstd::prelude::*;

verus! {

/// A point or a displacement. Both coordinates are fixed-point scalars.
#[derive(Clone, Copy, Debug, PartialEq, Eq, Structural)]
pub struct Vec2 {
    pub x: i64,
    pub y: i64,
}

/// An axis-aligned rectangle given by its four edges.
#[derive(Clone, Copy, Debug, PartialEq, Eq, Structural)]
pub struct Rect {
    pub left: i64,
    pub right: i64,
    pub bottom: i64,
    pub top: i64,
}

/// Magnitude of a scalar, as a wide unsigned integer.
fn magnitude(v: i64) -> (m: u128)
    ensures
        m == if v < 0 { -(v as int) } else { v as int },
        m <= 0x8000_0000_0000_0000,
{
    if v < 0 {
        (-(v as i128)) as u128
    } else {
        v as u128
    }
}

/// The square of a magnitude is the square of its scalar, and it stays
/// below the 126th power of two.
proof fn lemma_magnitude_square(v: int, m: int)
    requires
        m == v || m == -v,
        0 <= m <= 0x8000_0000_0000_0000,
    ensures
        m * m == v * v,
        m * m <= 0x8000_0000_0000_0000 * 0x8000_0000_0000_0000,
{
    assert(m * m == v * v && m * m <= 0x8000_0000_0000_0000 * 0x8000_0000_0000_0000)
        by (nonlinear_arith)
        requires
            m == v || m == -v,
            0 <= m <= 0x8000_0000_0000_0000,
    ;
}

/// Linear interpolation between two scalars: `a + (b - a) * t`, each step
/// saturating.
pub open spec fn spec_lerp(a: i64, b: i64, t: i64) -> i64 {
    clamp(a + clamp(quot(clamp(b - a) * t, SCALE as int)))
}

/// Moves the fraction `t` of the way from `a` to `b`.
#[verifier::when_used_as_spec(spec_lerp)]
pub fn lerp(a: i64, b: i64, t: i64) -> (r: i64)
    ensures
        r == spec_lerp(a, b, t),
{
    fx_add(a, fx_mul(fx_sub(b, a), t))
}

/// Componentwise interpolation between two points.
pub open spec fn spec_lerp_vec2(a: Vec2, b: Vec2, t: i64) -> Vec2 {
    Vec2 { x: spec_lerp(a.x, b.x, t), y: spec_lerp(a.y, b.y, t) }
}

/// Moves the fraction `t` of the way from `a` to `b`, coordinate by
/// coordinate.
#[verifier::when_used_as_spec(spec_lerp_vec2)]
pub fn lerp_vec2(a: Vec2, b: Vec2, t: i64) -> (r: Vec2)
    ensures
        r == spec_lerp_vec2(a, b, t),
{
    Vec2 { x: lerp(a.x, b.x, t), y: lerp(a.y, b.y, t) }
}

impl Vec2 {
    /// Whether both coordinates lie in the representable range.
    pub open spec fn in_world(self) -> bool {
        in_range(self.x as int) && in_range(self.y as int)
    }

    /// The vector whose coordinates are both zero.
    pub open spec fn spec_zero() -> Vec2 {
        Vec2 { x: 0, y: 0 }
    }

    /// The origin, and the null displacement.
    #[verifier::when_used_as_spec(spec_zero)]
    pub fn zero() -> (v: Vec2)
        ensures
            v == Vec2::spec_zero(),
    {
        Vec2 { x: 0, y: 0 }
    }

    /// The vector with the coordinates `x` and `y`.
    pub open spec fn spec_new(x: i64, y: i64) -> Vec2 {
        Vec2 { x, y }
    }

    /// The vector with the given coordinates.
    #[verifier::when_used_as_spec(spec_new)]
    pub fn new(x: i64, y: i64) -> (v: Vec2)
        ensures
            v == Vec2::spec_new(x, y),
    {
        Vec2 { x, y }
    }

    /// Both coordinates saturated to the representable range.
    pub open spec fn spec_clamped(self) -> Vec2 {
        Vec2 { x: clamp(self.x as int), y: clamp(self.y as int) }
    }

    /// Brings a vector into the world.
    #[verifier::when_used_as_spec(spec_clamped)]
    pub fn clamped(self) -> (r: Vec2)
        ensures
            r == self.spec_clamped(),
            r.in_world(),
            self.in_world() ==> r == self,
    {
        Vec2 { x: saturate(self.x as i128), y: saturate(self.y as i128) }
    }

    /// Componentwise saturating sum.
    pub open spec fn spec_plus(self, o: Vec2) -> Vec2 {
        Vec2 { x: clamp(self.x + o.x), y: clamp(self.y + o.y) }
    }

    /// Moves `self` by `o`.
    #[verifier::when_used_as_spec(spec_plus)]
    pub fn plus(self, o: Vec2) -> (r: Vec2)
        ensures
            r == self.spec_plus(o),
    {
        Vec2 { x: fx_add(self.x, o.x), y: fx_add(self.y, o.y) }
    }

    /// Componentwise saturating difference.
    pub open spec fn spec_minus(self, o: Vec2) -> Vec2 {
        Vec2 { x: clamp(self.x - o.x), y: clamp(self.y - o.y) }
    }

    /// The displacement that leads from `o` to `self`.
    #[verifier::when_used_as_spec(spec_minus)]
    pub fn minus(self, o: Vec2) -> (r: Vec2)
        ensures
            r == self.spec_minus(o),
    {
        Vec2 { x: fx_sub(self.x, o.x), y: fx_sub(self.y, o.y) }
    }

    /// Componentwise fixed-point product with the scalar `s`.
    pub open spec fn spec_scaled(self, s: i64) -> Vec2 {
        Vec2 {
            x: clamp(quot(self.x * s, SCALE as int)),
            y: clamp(quot(self.y * s, SCALE as int)),
        }
    }

    /// Stretches `self` by the factor `s`.
    #[verifier::when_used_as_spec(spec_scaled)]
    pub fn scaled(self, s: i64) -> (r: Vec2)
        ensures
            r == self.spec_scaled(s),
    {
        Vec2 { x: fx_mul(self.x, s), y: fx_mul(self.y, s) }
    }

    /// Squared Euclidean norm in raw steps, exact.
    pub open spec fn norm_sq(self) -> int {
        self.x * self.x + self.y * self.y
    }

    /// Euclidean norm in raw steps, rounded down, before saturation.
    pub open spec fn norm(self) -> int {
        spec_isqrt(self.norm_sq())
    }

    /// Euclidean norm in raw steps, rounded down, of any vector.
    fn wide_norm(self) -> (n: u64)
        ensures
            n == self.norm(),
    {
        let ax = magnitude(self.x);
        let ay = magnitude(self.y);
        proof {
            lemma_magnitude_square(self.x as int, ax as int);
            lemma_magnitude_square(self.y as int, ay as int);
        }
        isqrt(ax * ax + ay * ay)
    }

    /// Euclidean length, rounded down and saturated.
    pub open spec fn spec_length(self) -> i64 {
        clamp(self.norm())
    }

    /// The length of `self`.
    #[verifier::when_used_as_spec(spec_length)]
    pub fn length(self) -> (r: i64)
        ensures
            r == self.spec_length(),
    {
        saturate(self.wide_norm() as i128)
    }

    /// The direction of `self`: each coordinate divided by the norm, or the
    /// null vector where the norm is zero. The norm is rounded down, which
    /// shows only in vectors of a few raw steps.
    pub open spec fn spec_normalized(self) -> Vec2 {
        let n = self.norm();
        if n == 0 {
            Vec2 { x: 0, y: 0 }
        } else {
            Vec2 {
                x: clamp(quot(self.x * SCALE, n)),
                y: clamp(quot(self.y * SCALE, n)),
            }
        }
    }

    /// The direction of `self`. The null vector has none, and gives the null
    /// vector.
    #[verifier::when_used_as_spec(spec_normalized)]
    pub fn normalized(self) -> (r: Vec2)
        ensures
            r == self.spec_normalized(),
    {
        let n = self.wide_norm();
        if n == 0 {
            Vec2 { x: 0, y: 0 }
        } else {
            Vec2 {
                x: saturate(wide_mul(self.x, SCALE) / (n as i128)),
                y: saturate(wide_mul(self.y, SCALE) / (n as i128)),
            }
        }
    }

    /// Length of the saturated difference of two points.
    pub open spec fn spec_distance(self, o: Vec2) -> i64 {
        self.spec_minus(o).spec_length()
    }

    /// How far `self` lies from `o`.
    #[verifier::when_used_as_spec(spec_distance)]
    pub fn distance(self, o: Vec2) -> (r: i64)
        ensures
            r == self.spec_distance(o),
    {
        self.minus(o).length()
    }

    /// The point halfway between two points, each coordinate rounded
    /// toward zero.
    pub open spec fn spec_midpoint(self, o: Vec2) -> Vec2 {
        Vec2 { x: clamp(quot(self.x + o.x, 2)), y: clamp(quot(self.y + o.y, 2)) }
    }

    /// The middle of the segment from `self` to `o`.
    #[verifier::when_used_as_spec(spec_midpoint)]
    pub fn midpoint(self, o: Vec2) -> (r: Vec2)
        ensures
            r == self.spec_midpoint(o),
    {
        Vec2 {
            x: saturate((self.x as i128 + o.x as i128) / 2),
            y: saturate((self.y as i128 + o.y as i128) / 2),
        }
    }
}

impl Rect {
    /// Width: the saturated difference of the right and the left edge.
    pub open spec fn spec_w(self) -> i64 {
        clamp(self.right - self.left)
    }

    /// The width of the rectangle.
    #[verifier::when_used_as_spec(spec_w)]
    pub fn w(self) -> (r: i64)
        ensures
            r == self.spec_w(),
    {
        fx_sub(self.right, self.left)
    }

    /// Height: the saturated difference of the top and the bottom edge.
    pub open spec fn spec_h(self) -> i64 {
        clamp(self.top - self.bottom)
    }

    /// The height of the rectangle.
    #[verifier::when_used_as_spec(spec_h)]
    pub fn h(self) -> (r: i64)
        ensures
            r == self.spec_h(),
    {
        fx_sub(self.top, self.bottom)
    }
}

/// A length is never negative and never beyond the representable range.
pub proof fn lemma_length_bounds(v: Vec2)
    ensures
        0 <= v.length() <= LIMIT,
        0 <= v.norm_sq(),
        is_root(v.norm_sq(), v.norm()),
{
    assert(v.norm_sq() >= 0) by (nonlinear_arith)
        requires
            v.norm_sq() == v.x * v.x + v.y * v.y,
    ;
    lemma_isqrt_is_root(v.norm_sq());
}

/// The null vector has no length and no direction, stretching it gives the
/// null vector, and so does stretching any vector by nothing.
pub proof fn lemma_null_vector(v: Vec2, s: i64)
    ensures
        Vec2::zero().length() == 0,
        Vec2::zero().normalized() == Vec2::zero(),
        Vec2::zero().scaled(s) == Vec2::zero(),
        v.scaled(0) == Vec2::zero(),
        v.minus(v) == Vec2::zero(),
        v.in_world() ==> v.plus(Vec2::zero()) == v && v.minus(Vec2::zero()) == v,
{
    lemma_isqrt_eq(0, 0);
    assert(Vec2::zero().norm_sq() == 0);
}

/// Whether the coordinates of `c` point the way of the displacement
/// `(dx, dy)`, each one by one: none has the opposite sign, and one is zero
/// where the displacement's is.
pub open spec fn points_along(c: Vec2, dx: int, dy: int) -> bool {
    &&& dx >= 0 ==> c.x >= 0
    &&& dx <= 0 ==> c.x <= 0
    &&& dy >= 0 ==> c.y >= 0
    &&& dy <= 0 ==> c.y <= 0
}

/// A direction points the way of its vector.
pub proof fn lemma_normalized_sign(v: Vec2)
    ensures
        points_along(v.normalized(), v.x as int, v.y as int),
{
    lemma_length_bounds(v);
    let n = v.norm();
    if n != 0 {
        lemma_quot_sign(v.x * SCALE, n);
        lemma_quot_sign(v.y * SCALE, n);
    }
}

/// Stretching by a factor that is not negative keeps the way a vector
/// points.
pub proof fn lemma_scaled_sign(v: Vec2, s: i64)
    requires
        s >= 0,
    ensures
        points_along(v.scaled(s), v.x as int, v.y as int),
{
    assert((v.x >= 0 ==> v.x * s >= 0) && (v.x <= 0 ==> v.x * s <= 0) && (v.y >= 0 ==> v.y * s
        >= 0) && (v.y <= 0 ==> v.y * s <= 0)) by (nonlinear_arith)
        requires
            s >= 0,
    ;
    lemma_quot_sign(v.x * s, SCALE as int);
    lemma_quot_sign(v.y * s, SCALE as int);
}

/// No coordinate of a direction exceeds one in magnitude.
pub proof fn lemma_normalized_bounds(v: Vec2)
    ensures
        -SCALE <= v.normalized().x <= SCALE,
        -SCALE <= v.normalized().y <= SCALE,
{
    lemma_length_bounds(v);
    let n = v.norm();
    if n != 0 {
        lemma_unit_coordinate(v.x as int, v.y as int, n);
        lemma_unit_coordinate(v.y as int, v.x as int, n);
    }
}

/// For a vector `(m, o)` with the positive norm `n`, the coordinate `m` is
/// at most `n` in magnitude and the quotient `m * SCALE / n` lies between
/// minus one and one.
proof fn lemma_unit_coordinate(m: int, o: int, n: int)
    requires
        0 < n,
        m * m + o * o < (n + 1) * (n + 1),
    ensures
        abs_of(m) <= n,
        -SCALE <= quot(m * SCALE, n) <= SCALE,
{
    let a = abs_of(m);
    assert(a <= n) by (nonlinear_arith)
        requires
            a == m || a == -m,
            0 <= a,
            0 < n,
            m * m + o * o < (n + 1) * (n + 1),
    ;
    assert(a * SCALE <= SCALE * n && (m * SCALE == a * SCALE || m * SCALE == -(a * SCALE))
        && SCALE * n == n * SCALE) by (nonlinear_arith)
        requires
            0 <= a <= n,
            a == m || a == -m,
            SCALE == 65536,
    ;
    lemma_quot_sign(a * SCALE, n);
    lemma_quot_sign(m * SCALE, n);
    vstd::arithmetic::div_mod::lemma_div_is_ordered(a * SCALE, SCALE * n, n);
    vstd::arithmetic::div_mod::lemma_div_multiples_vanish(SCALE as int, n);
}

/// A vector stretched along its own direction by the length `h` gives a
/// displacement that points the way of the vector and is, coordinate by
/// coordinate, no more than the fraction `h / norm` of it.
pub proof fn lemma_push_within_ratio(v: Vec2, h: i64)
    requires
        h >= 0,
        v.norm() > 0,
    ensures
        points_along(v.normalized().scaled(h), v.x as int, v.y as int),
        abs_of(v.normalized().scaled(h).x as int) * v.norm() <= abs_of(v.x as int) * h,
        abs_of(v.normalized().scaled(h).y as int) * v.norm() <= abs_of(v.y as int) * h,
{
    lemma_length_bounds(v);
    lemma_normalized_sign(v);
    lemma_normalized_bounds(v);
    lemma_scaled_sign(v.normalized(), h);
    let n = v.norm();
    lemma_unit_coordinate(v.x as int, v.y as int, n);
    lemma_unit_coordinate(v.y as int, v.x as int, n);
    lemma_push_coordinate(v.x as int, n, h as int);
    lemma_push_coordinate(v.y as int, n, h as int);
}

/// The coordinate `x` of a vector of norm `n`, divided by the norm and
/// stretched by `h`, is in magnitude no more than `x * h / n`.
proof fn lemma_push_coordinate(x: int, n: int, h: int)
    requires
        abs_of(x) <= n,
        0 < n,
        0 <= h,
    ensures
        abs_of(clamp(quot(clamp(quot(x * SCALE, n)) * h, SCALE as int)) as int) * n <= abs_of(x)
            * h,
{
    let a = abs_of(x);
    let q = quot(a * SCALE, n);
    assert(a * SCALE >= 0 && a * SCALE <= n * SCALE) by (nonlinear_arith)
        requires
            0 <= a <= n,
            SCALE == 65536,
    ;
    lemma_quot_sign(a * SCALE, n);
    vstd::arithmetic::div_mod::lemma_fundamental_div_mod(a * SCALE, n);
    vstd::arithmetic::div_mod::lemma_div_is_ordered(a * SCALE, n * SCALE, n);
    assert(n * SCALE == SCALE * n) by (nonlinear_arith);
    vstd::arithmetic::div_mod::lemma_div_multiples_vanish(SCALE as int, n);
    assert(0 <= q <= SCALE);
    assert(q * n <= a * SCALE) by (nonlinear_arith)
        requires
            a * SCALE == n * q + (a * SCALE) % n,
            0 <= (a * SCALE) % n,
    ;
    let d = clamp(q) as int;
    assert(d == q);
    let r = quot(d * h, SCALE as int);
    assert(d * h >= 0) by (nonlinear_arith)
        requires
            d >= 0,
            h >= 0,
    ;
    lemma_quot_sign(d * h, SCALE as int);
    vstd::arithmetic::div_mod::lemma_fundamental_div_mod(d * h, SCALE as int);
    assert(r * SCALE <= d * h) by (nonlinear_arith)
        requires
            d * h == SCALE * r + (d * h) % (SCALE as int),
            0 <= (d * h) % (SCALE as int),
    ;
    let c = clamp(r) as int;
    assert(0 <= c <= r);
    assert(c * n <= a * h) by (nonlinear_arith)
        requires
            0 <= c <= r,
            r * SCALE <= d * h,
            d == q,
            q * n <= a * SCALE,
            0 <= q,
            0 <= h,
            0 < n,
            SCALE == 65536,
    ;
    if x < 0 {
        assert(x * SCALE == -(a * SCALE)) by (nonlinear_arith)
            requires
                a == -x,
        ;
        lemma_quot_sign(a * SCALE, n);
        let dx = clamp(quot(x * SCALE, n)) as int;
        assert(dx == -d);
        assert(dx * h == -(d * h)) by (nonlinear_arith)
            requires
                dx == -d,
        ;
        lemma_quot_sign(d * h, SCALE as int);
        assert(clamp(quot(dx * h, SCALE as int)) as int == -c);
    }
}

/// A direction is never much shorter than one: along the coordinate in
/// which its vector reaches farthest it measures at least one half.
pub proof fn lemma_normalized_reach(v: Vec2)
    requires
        v != Vec2::zero(),
    ensures
        v.x * v.x >= v.y * v.y ==> v.normalized().x * v.normalized().x >= (SCALE / 2) * (SCALE
            / 2),
        v.y * v.y >= v.x * v.x ==> v.normalized().y * v.normalized().y >= (SCALE / 2) * (SCALE
            / 2),
{
    lemma_length_bounds(v);
    let n = v.norm();
    if v.x * v.x >= v.y * v.y {
        lemma_leading_coordinate(v.x as int, v.y as int, n);
    }
    if v.y * v.y >= v.x * v.x {
        lemma_leading_coordinate(v.y as int, v.x as int, n);
    }
}

/// For a vector `(m, o)` that is not null, with `|m| >= |o|` and norm `n`:
/// `n` is positive and the quotient `m * SCALE / n`, which cannot saturate,
/// measures at least one half.
proof fn lemma_leading_coordinate(m: int, o: int, n: int)
    requires
        m * m >= o * o,
        m != 0 || o != 0,
        -0x8000_0000_0000_0000 <= m <= 0x8000_0000_0000_0000,
        0 <= n,
        n * n <= m * m + o * o < (n + 1) * (n + 1),
    ensures
        n > 0,
        clamp(quot(m * SCALE, n)) * clamp(quot(m * SCALE, n)) >= (SCALE / 2) * (SCALE / 2),
{
    let a = if m >= 0 { m } else { -m };
    assert(a >= 1 && a * a == m * m) by (nonlinear_arith)
        requires
            a == (if m >= 0 { m } else { -m }),
            m * m >= o * o,
            m != 0 || o != 0,
    ;
    assert(a <= n && n < 2 * a) by (nonlinear_arith)
        requires
            a >= 1,
            0 <= n,
            n * n <= a * a + o * o,
            a * a + o * o < (n + 1) * (n + 1),
            a * a >= o * o,
    ;
    assert(a * SCALE >= (SCALE / 2) * n && a * SCALE <= SCALE * n) by (nonlinear_arith)
        requires
            a <= n,
            n < 2 * a,
            SCALE == 65536,
    ;
    lemma_quot_lower_bound(a * SCALE, n, SCALE as int / 2);
    lemma_quot_sign(a * SCALE, n);
    vstd::arithmetic::div_mod::lemma_div_is_ordered(a * SCALE, SCALE * n, n);
    vstd::arithmetic::div_mod::lemma_div_multiples_vanish(SCALE as int, n);
    assert(SCALE * n == n * SCALE) by (nonlinear_arith);
    let q = quot(a * SCALE, n);
    assert(SCALE / 2 <= q <= SCALE);
    assert(m * SCALE == a * SCALE || m * SCALE == -(a * SCALE)) by (nonlinear_arith)
        requires
            a == m || a == -m,
    ;
    lemma_quot_sign(m * SCALE, n);
    let r = clamp(quot(m * SCALE, n)) as int;
    assert(r == q || r == -q);
    assert(r * r >= (SCALE / 2) * (SCALE / 2)) by (nonlinear_arith)
        requires
            r == q || r == -q,
            SCALE / 2 <= q,
            SCALE == 65536,
    ;
}

/// Stretching by a factor of at least two raw steps does not annihilate a
/// coordinate that measures at least one half.
pub proof fn lemma_scaled_not_null(v: Vec2, s: i64)
    requires
        s >= 2,
    ensures
        v.x * v.x >= (SCALE / 2) * (SCALE / 2) ==> v.scaled(s).x != 0,
        v.y * v.y >= (SCALE / 2) * (SCALE / 2) ==> v.scaled(s).y != 0,
{
    lemma_scaled_reach(v, s, 1);
}

/// A coordinate that measures at least one half, stretched by `s`, measures
/// at least half of `s`: at least `k` raw steps where `s` is at least
/// `2 * k`.
pub proof fn lemma_scaled_reach(v: Vec2, s: i64, k: int)
    requires
        1 <= k <= LIMIT,
        s >= 2 * k,
    ensures
        v.x * v.x >= (SCALE / 2) * (SCALE / 2) ==> abs_of(v.scaled(s).x as int) >= k,
        v.y * v.y >= (SCALE / 2) * (SCALE / 2) ==> abs_of(v.scaled(s).y as int) >= k,
{
    lemma_stretched_coordinate(v.x, s, k);
    lemma_stretched_coordinate(v.y, s, k);
}

/// A coordinate of at least one half, stretched by at least `2 * k` raw
/// steps, is rounded to no less than `k` in magnitude.
proof fn lemma_stretched_coordinate(x: i64, s: i64, k: int)
    requires
        1 <= k <= LIMIT,
        s >= 2 * k,
    ensures
        x * x >= (SCALE / 2) * (SCALE / 2) ==> abs_of(clamp(quot(x * s, SCALE as int)) as int)
            >= k,
{
    if x * x >= (SCALE / 2) * (SCALE / 2) {
        let a = abs_of(x as int);
        assert(a >= SCALE / 2) by (nonlinear_arith)
            requires
                a == x || a == -x,
                a >= 0,
                x * x >= (SCALE / 2) * (SCALE / 2),
                SCALE == 65536,
        ;
        assert(a * s >= k * SCALE && (x * s == a * s || x * s == -(a * s))) by (nonlinear_arith)
            requires
                a >= SCALE / 2,
                s >= 2 * k,
                k >= 1,
                a == x || a == -x,
                SCALE == 65536,
        ;
        lemma_quot_lower_bound(a * s, SCALE as int, k);
        lemma_quot_sign(a * s, SCALE as int);
        lemma_quot_sign(x * s, SCALE as int);
    }
}

/// Stretching by the opposite factor gives the opposite vector.
pub proof fn lemma_scaled_negated(v: Vec2, s: i64)
    requires
        s > i64::MIN,
    ensures
        v.scaled((-s) as i64).x == -v.scaled(s).x,
        v.scaled((-s) as i64).y == -v.scaled(s).y,
{
    assert(v.x * (-s) == -(v.x * s) && v.y * (-s) == -(v.y * s)) by (nonlinear_arith);
    lemma_quot_sign(v.x * s, SCALE as int);
    lemma_quot_sign(v.y * s, SCALE as int);
}

/// Rounding costs a push little: the coordinate `x` of a vector of norm `n`,
/// divided by the norm and stretched by `h`, is no less than `x * h / n`
/// minus `h / SCALE + 2` raw steps.
proof fn lemma_push_coordinate_floor(x: int, n: int, h: int)
    requires
        0 <= x <= n,
        0 < n,
        0 <= h <= LIMIT,
    ensures
        clamp(quot(clamp(quot(x * SCALE, n)) * h, SCALE as int)) * n >= x * h - n * (quot(
            h,
            SCALE as int,
        ) + 2),
{
    let q = quot(x * SCALE, n);
    assert(x * SCALE >= 0 && x * SCALE <= n * SCALE) by (nonlinear_arith)
        requires
            0 <= x <= n,
            SCALE == 65536,
    ;
    lemma_quot_sign(x * SCALE, n);
    vstd::arithmetic::div_mod::lemma_fundamental_div_mod(x * SCALE, n);
    vstd::arithmetic::div_mod::lemma_mod_bound(x * SCALE, n);
    vstd::arithmetic::div_mod::lemma_div_is_ordered(x * SCALE, n * SCALE, n);
    assert(n * SCALE == SCALE * n) by (nonlinear_arith);
    vstd::arithmetic::div_mod::lemma_div_multiples_vanish(SCALE as int, n);
    assert(0 <= q <= SCALE);
    let rem1 = (x * SCALE) % n;
    assert(q * n == x * SCALE - rem1) by (nonlinear_arith)
        requires
            x * SCALE == n * q + rem1,
    ;
    let d = clamp(q) as int;
    assert(d == q);
    let r = quot(d * h, SCALE as int);
    assert(0 <= d * h <= SCALE * h) by (nonlinear_arith)
        requires
            0 <= d <= SCALE,
            h >= 0,
    ;
    lemma_quot_sign(d * h, SCALE as int);
    vstd::arithmetic::div_mod::lemma_fundamental_div_mod(d * h, SCALE as int);
    vstd::arithmetic::div_mod::lemma_mod_bound(d * h, SCALE as int);
    vstd::arithmetic::div_mod::lemma_div_is_ordered(d * h, SCALE * h, SCALE as int);
    vstd::arithmetic::div_mod::lemma_div_multiples_vanish(h, SCALE as int);
    assert(0 <= r <= h);
    let rem2 = (d * h) % (SCALE as int);
    assert(r * SCALE == d * h - rem2) by (nonlinear_arith)
        requires
            d * h == SCALE * r + rem2,
    ;
    let c = clamp(r) as int;
    assert(c == r);
    let w = quot(h, SCALE as int) + 2;
    lemma_quot_sign(h, SCALE as int);
    vstd::arithmetic::div_mod::lemma_fundamental_div_mod(h, SCALE as int);
    vstd::arithmetic::div_mod::lemma_mod_bound(h, SCALE as int);
    assert(SCALE * w >= h + SCALE);
    assert((c * n) * SCALE >= (x * h - n * w) * SCALE) by (nonlinear_arith)
        requires
            c == r,
            r * SCALE == d * h - rem2,
            d == q,
            q * n == x * SCALE - rem1,
            0 <= rem1 < n,
            0 <= rem2 < SCALE,
            SCALE * w >= h + SCALE,
            0 <= h,
            0 < n,
            SCALE == 65536,
    ;
    assert(c * n >= x * h - n * w) by (nonlinear_arith)
        requires
            (c * n) * SCALE >= (x * h - n * w) * SCALE,
            SCALE == 65536,
    ;
}

/// Rounding costs a push little: a vector stretched along its own direction
/// by the length `h` gives a displacement that is, coordinate by coordinate,
/// no less than the fraction `h / norm` of the vector minus `h / SCALE + 2`
/// raw steps.
pub proof fn lemma_push_at_least(v: Vec2, h: i64)
    requires
        0 <= h <= LIMIT,
        v.norm() > 0,
    ensures
        abs_of(v.normalized().scaled(h).x as int) * v.norm() >= abs_of(v.x as int) * h - v.norm()
            * (quot(h as int, SCALE as int) + 2),
        abs_of(v.normalized().scaled(h).y as int) * v.norm() >= abs_of(v.y as int) * h - v.norm()
            * (quot(h as int, SCALE as int) + 2),
{
    lemma_length_bounds(v);
    let n = v.norm();
    lemma_unit_coordinate(v.x as int, v.y as int, n);
    lemma_unit_coordinate(v.y as int, v.x as int, n);
    lemma_push_magnitude(v.x as int, n, h as int);
    lemma_push_magnitude(v.y as int, n, h as int);
    lemma_push_coordinate_floor(abs_of(v.x as int), n, h as int);
    lemma_push_coordinate_floor(abs_of(v.y as int), n, h as int);
}

/// The push along a coordinate has the magnitude of the push along the
/// magnitude of that coordinate.
proof fn lemma_push_magnitude(x: int, n: int, h: int)
    requires
        0 < n,
        0 <= h,
    ensures
        abs_of(clamp(quot(clamp(quot(x * SCALE, n)) * h, SCALE as int)) as int) == clamp(
            quot(clamp(quot(abs_of(x) * SCALE, n)) * h, SCALE as int),
        ),
{
    let a = abs_of(x);
    assert(a * SCALE >= 0) by (nonlinear_arith)
        requires
            a >= 0,
            SCALE == 65536,
    ;
    lemma_quot_sign(a * SCALE, n);
    let d = clamp(quot(a * SCALE, n)) as int;
    assert(d * h >= 0) by (nonlinear_arith)
        requires
            d >= 0,
            h >= 0,
    ;
    lemma_quot_sign(d * h, SCALE as int);
    if x < 0 {
        assert(x * SCALE == -(a * SCALE)) by (nonlinear_arith)
            requires
                a == -x,
        ;
        let dx = clamp(quot(x * SCALE, n)) as int;
        assert(dx == -d);
        assert(dx * h == -(d * h)) by (nonlinear_arith)
            requires
                dx == -d,
        ;
    }
}

/// The coordinates of a vector of norm `n`, taken as magnitudes, sum to no
/// more than twice `n`.
pub proof fn lemma_coordinate_sum(ax: int, ay: int, n: int)
    requires
        0 <= ax,
        0 <= ay,
        1 <= n,
        ax * ax + ay * ay < (n + 1) * (n + 1),
    ensures
        ax + ay <= 2 * n,
{
    if n == 1 {
        assert(ax <= 1 && ay <= 1) by (nonlinear_arith)
            requires
                0 <= ax,
                0 <= ay,
                n == 1,
                ax * ax + ay * ay < (n + 1) * (n + 1),
        ;
    } else {
        assert(ax + ay <= 2 * n) by (nonlinear_arith)
            requires
                0 <= ax,
                0 <= ay,
                2 <= n,
                ax * ax + ay * ay < (n + 1) * (n + 1),
        ;
    }
}

/// A separation `(ax, ay)` of norm at least `n`, spread to `(x, y)` by a
/// push that is no less than the fraction `h / n` of it minus `w` raw steps
/// in each coordinate, has a squared norm of at least `(n + h - 4 * w)`
/// squared.
pub proof fn lemma_spread_floor(ax: int, ay: int, x: int, y: int, n: int, h: int, w: int)
    requires
        0 <= ax,
        0 <= ay,
        0 <= x,
        0 <= y,
        1 <= n,
        0 <= w,
        4 * w <= n + h,
        n * x >= ax * (n + h) - n * w,
        n * y >= ay * (n + h) - n * w,
        n * n <= ax * ax + ay * ay,
        ax + ay <= 2 * n,
    ensures
        (n + h - 4 * w) * (n + h - 4 * w) <= x * x + y * y,
{
    let k = n + h;
    let g = k - 4 * w;
    let px = n * x;
    let py = n * y;
    let nw = n * w;
    let a = ax * k;
    let b = ay * k;
    let qx = a - nw;
    let qy = b - nw;
    let t = ax * ax + ay * ay;
    let u = ax + ay;
    let z = x * x + y * y;
    assert(0 <= px && 0 <= py && 0 <= nw && 0 <= a && 0 <= b) by (nonlinear_arith)
        requires
            px == n * x,
            py == n * y,
            nw == n * w,
            a == ax * k,
            b == ay * k,
            1 <= n,
            0 <= x,
            0 <= y,
            0 <= w,
            0 <= ax,
            0 <= ay,
            0 <= k,
    ;
    assert(px * px >= qx * qx - nw * nw) by (nonlinear_arith)
        requires
            px >= qx,
            0 <= px,
            qx >= -nw,
            0 <= nw,
    ;
    assert(py * py >= qy * qy - nw * nw) by (nonlinear_arith)
        requires
            py >= qy,
            0 <= py,
            qy >= -nw,
            0 <= nw,
    ;
    let s1 = a * a + b * b;
    let s2 = nw * (a + b);
    assert(qx * qx + qy * qy - 2 * (nw * nw) == s1 - 2 * s2) by (nonlinear_arith)
        requires
            qx == a - nw,
            qy == b - nw,
            s1 == a * a + b * b,
            s2 == nw * (a + b),
    ;
    let kn = k * n;
    assert(s1 >= kn * kn) by (nonlinear_arith)
        requires
            s1 == a * a + b * b,
            a == ax * k,
            b == ay * k,
            kn == k * n,
            n * n <= ax * ax + ay * ay,
    ;
    assert(s2 <= 2 * (w * (kn * n))) by (nonlinear_arith)
        requires
            s2 == nw * (a + b),
            a == ax * k,
            b == ay * k,
            nw == n * w,
            kn == k * n,
            ax + ay <= 2 * n,
            0 <= ax,
            0 <= ay,
            0 <= k,
            0 <= w,
            1 <= n,
    ;
    let gn = g * n;
    assert(kn * kn - 4 * (w * (kn * n)) >= gn * gn) by (nonlinear_arith)
        requires
            kn == k * n,
            gn == g * n,
            g == k - 4 * w,
            0 <= g,
            0 <= w,
            1 <= n,
    ;
    assert(px * px + py * py == (n * n) * z && gn * gn == (n * n) * (g * g)) by (nonlinear_arith)
        requires
            px == n * x,
            py == n * y,
            z == x * x + y * y,
            gn == g * n,
    ;
    assert((n * n) * (g * g) <= (n * n) * z);
    assert(g * g <= z) by (nonlinear_arith)
        requires
            (n * n) * (g * g) <= (n * n) * z,
            1 <= n,
    ;
}

/// A separation `(ax, ay)` of norm `n`, drawn in to `(x, y)` by a pull that
/// is no less than the fraction `g / n` of it minus `w` raw steps in each
/// coordinate, has a squared norm below `(n - g + 1 + 2 * w)` squared.
pub proof fn lemma_shrink_ceiling(ax: int, ay: int, x: int, y: int, n: int, g: int, w: int)
    requires
        0 <= ax,
        0 <= ay,
        0 <= x,
        0 <= y,
        1 <= n,
        0 <= w,
        0 <= g <= n,
        n * x <= ax * (n - g) + n * w,
        n * y <= ay * (n - g) + n * w,
        ax * ax + ay * ay < (n + 1) * (n + 1),
        ax + ay <= 2 * n,
    ensures
        x * x + y * y < (n - g + 1 + 2 * w) * (n - g + 1 + 2 * w),
{
    let k = n - g;
    let e = k + 1 + 2 * w;
    let px = n * x;
    let py = n * y;
    let nw = n * w;
    let a = ax * k;
    let b = ay * k;
    let rx = a + nw;
    let ry = b + nw;
    let z = x * x + y * y;
    assert(0 <= px && 0 <= py && 0 <= nw && 0 <= a && 0 <= b) by (nonlinear_arith)
        requires
            px == n * x,
            py == n * y,
            nw == n * w,
            a == ax * k,
            b == ay * k,
            1 <= n,
            0 <= x,
            0 <= y,
            0 <= w,
            0 <= ax,
            0 <= ay,
            0 <= k,
    ;
    lemma_square_order(px, rx);
    lemma_square_order(py, ry);
    let s1 = a * a + b * b;
    let s2 = nw * (a + b);
    assert(rx * rx + ry * ry == s1 + 2 * s2 + 2 * (nw * nw)) by (nonlinear_arith)
        requires
            rx == a + nw,
            ry == b + nw,
            s1 == a * a + b * b,
            s2 == nw * (a + b),
    ;
    let kn = (k + 1) * n;
    let kk = k * (n + 1);
    let t = ax * ax + ay * ay;
    assert(s1 == (k * k) * t) by (nonlinear_arith)
        requires
            s1 == a * a + b * b,
            a == ax * k,
            b == ay * k,
            t == ax * ax + ay * ay,
    ;
    assert((k * k) * t <= kk * kk - k * k) by (nonlinear_arith)
        requires
            kk == k * (n + 1),
            t <= (n + 1) * (n + 1) - 1,
    ;
    assert(0 <= kk <= kn && 1 <= kn) by (nonlinear_arith)
        requires
            kk == k * (n + 1),
            kn == (k + 1) * n,
            0 <= k <= n,
            1 <= n,
    ;
    lemma_square_order(kk, kn);
    assert(k == 0 ==> s1 <= 0) by (nonlinear_arith)
        requires
            s1 == (k * k) * t,
    ;
    assert(s1 < kn * kn) by (nonlinear_arith)
        requires
            s1 <= kk * kk - k * k,
            kk * kk <= kn * kn,
            1 <= kn,
            0 <= k,
            k == 0 ==> s1 <= 0,
    ;
    assert(s2 <= 2 * (w * ((k * n) * n))) by (nonlinear_arith)
        requires
            s2 == nw * (a + b),
            a == ax * k,
            b == ay * k,
            nw == n * w,
            ax + ay <= 2 * n,
            0 <= ax,
            0 <= ay,
            0 <= k,
            0 <= w,
            1 <= n,
    ;
    let en = e * n;
    assert(kn * kn + 4 * (w * ((k * n) * n)) + 2 * (nw * nw) <= en * en) by (nonlinear_arith)
        requires
            kn == (k + 1) * n,
            en == e * n,
            nw == n * w,
            e == k + 1 + 2 * w,
            0 <= k,
            0 <= w,
            1 <= n,
    ;
    assert(px * px + py * py == (n * n) * z && en * en == (n * n) * (e * e)) by (nonlinear_arith)
        requires
            px == n * x,
            py == n * y,
            z == x * x + y * y,
            en == e * n,
    ;
    assert((n * n) * z < (n * n) * (e * e));
    assert(z < e * e) by (nonlinear_arith)
        requires
            (n * n) * z < (n * n) * (e * e),
            1 <= n,
    ;
}

/// Of two numbers that are not negative, the larger has the larger square,
/// and the one with the strictly smaller square is strictly smaller.
pub proof fn lemma_square_order(p: int, q: int)
    requires
        0 <= p,
        0 <= q,
    ensures
        p <= q ==> p * p <= q * q,
        p * p < q * q ==> p < q,
{
    assert((p <= q ==> p * p <= q * q) && (p * p < q * q ==> p < q)) by (nonlinear_arith)
        requires
            0 <= p,
            0 <= q,
    ;
}

/// A separation `(dx, dy)` of norm `n` that is spread by `(ux, uy)` along
/// itself, by two raw steps or more in the coordinate in which it reaches
/// farthest, has a norm above `n`.
pub proof fn lemma_lead_growth(dx: int, dy: int, ux: int, uy: int, n: int)
    requires
        dx >= 0 ==> ux >= 0,
        dx <= 0 ==> ux <= 0,
        dy >= 0 ==> uy >= 0,
        dy <= 0 ==> uy <= 0,
        0 <= n,
        n * n <= dx * dx + dy * dy,
        (dx * dx >= dy * dy && abs_of(ux) >= 2) || (dy * dy >= dx * dx && abs_of(uy) >= 2),
    ensures
        (n + 1) * (n + 1) <= (dx + ux) * (dx + ux) + (dy + uy) * (dy + uy),
{
    if dx * dx >= dy * dy && abs_of(ux) >= 2 {
        lemma_lead_growth_one(dx, dy, ux, uy, n);
    } else {
        lemma_lead_growth_one(dy, dx, uy, ux, n);
    }
}

proof fn lemma_lead_growth_one(m: int, o: int, um: int, uo: int, n: int)
    requires
        m >= 0 ==> um >= 0,
        m <= 0 ==> um <= 0,
        o >= 0 ==> uo >= 0,
        o <= 0 ==> uo <= 0,
        0 <= n,
        n * n <= m * m + o * o,
        m * m >= o * o,
        abs_of(um) >= 2,
    ensures
        (n + 1) * (n + 1) <= (m + um) * (m + um) + (o + uo) * (o + uo),
{
    let a = abs_of(m);
    let e = abs_of(um);
    assert(a >= 1 && e >= 2);
    assert((m + um) * (m + um) >= a * a + 4 * a + 4 && a * a == m * m) by (nonlinear_arith)
        requires
            a >= 1,
            e >= 2,
            (m == a && um == e) || (m == -a && um == -e),
    ;
    assert((o + uo) * (o + uo) >= o * o) by (nonlinear_arith)
        requires
            o >= 0 ==> uo >= 0,
            o <= 0 ==> uo <= 0,
    ;
    assert(n < 2 * a) by (nonlinear_arith)
        requires
            0 <= n,
            a >= 1,
            n * n <= a * a + o * o,
            a * a >= o * o,
    ;
    assert((n + 1) * (n + 1) == n * n + 2 * n + 1) by (nonlinear_arith);
}

/// A separation `(m, o)`, given by magnitudes with `m` the larger, of norm
/// `n`, that is drawn in by `(um, uo)`, by four raw steps or more in `m`,
/// has a norm below `n`.
pub proof fn lemma_lead_shrink(m: int, o: int, um: int, uo: int, n: int)
    requires
        0 <= o <= m,
        4 <= um <= m,
        0 <= uo <= o,
        0 <= n,
        n * n <= m * m + o * o,
        m * m + o * o < (n + 1) * (n + 1),
    ensures
        (m - um) * (m - um) + (o - uo) * (o - uo) < n * n,
{
    assert((m - um) * (m - um) <= m * m - 4 * m) by (nonlinear_arith)
        requires
            4 <= um <= m,
    ;
    assert((o - uo) * (o - uo) <= o * o) by (nonlinear_arith)
        requires
            0 <= uo <= o,
    ;
    assert(n < 2 * m) by (nonlinear_arith)
        requires
            0 <= n,
            m >= 1,
            n * n <= m * m + o * o,
            0 <= o <= m,
    ;
    assert((n + 1) * (n + 1) == n * n + 2 * n + 1) by (nonlinear_arith);
}

/// A separation `(ax, ay)`, given by magnitudes, of norm at least `n`, that
/// is drawn in by a displacement `(ux, uy)` of no more than the fraction
/// `g / n` of it, keeps a norm of at least `n - g`.
pub proof fn lemma_shrink_bound(ax: int, ay: int, ux: int, uy: int, n: int, g: int)
    requires
        0 <= ux,
        0 <= uy,
        0 <= ax,
        0 <= ay,
        1 <= n,
        0 <= g <= n,
        ux * n <= ax * g,
        uy * n <= ay * g,
        n * n <= ax * ax + ay * ay,
    ensures
        ux <= ax,
        uy <= ay,
        (n - g) * (n - g) <= (ax - ux) * (ax - ux) + (ay - uy) * (ay - uy),
{
    let k = n - g;
    assert(ux <= ax && uy <= ay) by (nonlinear_arith)
        requires
            ux * n <= ax * g,
            uy * n <= ay * g,
            0 <= g <= n,
            1 <= n,
            0 <= ax,
            0 <= ay,
            0 <= ux,
            0 <= uy,
    ;
    let x = ax - ux;
    let y = ay - uy;
    let nx = n * x;
    let ny = n * y;
    let kx = ax * k;
    let ky = ay * k;
    assert(0 <= kx <= nx) by (nonlinear_arith)
        requires
            nx == n * (ax - ux),
            kx == ax * (n - g),
            ux * n <= ax * g,
            0 <= ax,
            0 <= g <= n,
    ;
    assert(0 <= ky <= ny) by (nonlinear_arith)
        requires
            ny == n * (ay - uy),
            ky == ay * (n - g),
            uy * n <= ay * g,
            0 <= ay,
            0 <= g <= n,
    ;
    lemma_square_order(kx, nx);
    lemma_square_order(ky, ny);
    let t = x * x + y * y;
    assert(nx * nx + ny * ny == (n * n) * t) by (nonlinear_arith)
        requires
            nx == n * x,
            ny == n * y,
            t == x * x + y * y,
    ;
    assert(kx * kx + ky * ky >= (n * n) * (k * k)) by (nonlinear_arith)
        requires
            kx == ax * k,
            ky == ay * k,
            n * n <= ax * ax + ay * ay,
    ;
    assert(k * k <= t) by (nonlinear_arith)
        requires
            (n * n) * (k * k) <= (n * n) * t,
            1 <= n,
    ;
}

/// A separation `(ax, ay)`, given by magnitudes, of norm `n`, spread by a
/// displacement `(ux, uy)` that is no more than the fraction `g / n` of it,
/// has a norm `m` with `n * m < (n + 1) * (n + g)`.
pub proof fn lemma_spread_bound(ax: int, ay: int, ux: int, uy: int, n: int, g: int, m: int)
    requires
        0 <= ax,
        0 <= ay,
        0 <= ux,
        0 <= uy,
        1 <= n,
        0 <= g,
        0 <= m,
        ux * n <= ax * g,
        uy * n <= ay * g,
        ax * ax + ay * ay < (n + 1) * (n + 1),
        m * m <= (ax + ux) * (ax + ux) + (ay + uy) * (ay + uy),
    ensures
        n * m < (n + 1) * (n + g),
{
    let k = n + g;
    let x = ax + ux;
    let y = ay + uy;
    let nx = n * x;
    let ny = n * y;
    let kx = ax * k;
    let ky = ay * k;
    assert(0 <= nx <= kx) by (nonlinear_arith)
        requires
            nx == n * (ax + ux),
            kx == ax * (n + g),
            ux * n <= ax * g,
            0 <= ax,
            0 <= ux,
            1 <= n,
    ;
    assert(0 <= ny <= ky) by (nonlinear_arith)
        requires
            ny == n * (ay + uy),
            ky == ay * (n + g),
            uy * n <= ay * g,
            0 <= ay,
            0 <= uy,
            1 <= n,
    ;
    lemma_square_order(nx, kx);
    lemma_square_order(ny, ky);
    let p = n * m;
    let q = k * (n + 1);
    assert(p * p <= nx * nx + ny * ny) by (nonlinear_arith)
        requires
            p == n * m,
            nx == n * x,
            ny == n * y,
            m * m <= x * x + y * y,
    ;
    assert(kx * kx + ky * ky < q * q) by (nonlinear_arith)
        requires
            kx == ax * k,
            ky == ay * k,
            q == k * (n + 1),
            ax * ax + ay * ay < (n + 1) * (n + 1),
            k >= 1,
    ;
    assert(0 <= p && 0 <= q) by (nonlinear_arith)
        requires
            p == n * m,
            q == k * (n + 1),
            1 <= n,
            0 <= m,
            1 <= k,
    ;
    lemma_square_order(p, q);
    assert(q == (n + 1) * (n + g)) by (nonlinear_arith)
        requires
            q == k * (n + 1),
            k == n + g,
    ;
}

/// Interpolation by a fraction from zero to one stays between its two ends,
/// and it leaves the first end as soon as the way between the two, times
/// the fraction, reaches one raw step.
pub proof fn lemma_lerp_between(a: i64, b: i64, t: i64)
    requires
        0 <= t <= SCALE,
        in_range(a as int),
        in_range(b as int),
        in_range(b - a),
    ensures
        a <= b ==> a <= lerp(a, b, t) <= b,
        b <= a ==> b <= lerp(a, b, t) <= a,
        abs_of(b - a) * t >= SCALE ==> lerp(a, b, t) != a,
{
    let d = b - a;
    let m = abs_of(d);
    assert(0 <= m * t <= m * SCALE && (d * t == m * t || d * t == -(m * t)) && m * SCALE == SCALE
        * m) by (nonlinear_arith)
        requires
            0 <= t <= SCALE,
            0 <= m,
            d == m || d == -m,
    ;
    lemma_quot_sign(m * t, SCALE as int);
    lemma_quot_sign(d * t, SCALE as int);
    vstd::arithmetic::div_mod::lemma_div_is_ordered(m * t, SCALE * m, SCALE as int);
    vstd::arithmetic::div_mod::lemma_div_multiples_vanish(m, SCALE as int);
    if m * t >= SCALE {
        lemma_quot_lower_bound(m * t, SCALE as int, 1);
    }
    let step = quot(m * t, SCALE as int);
    assert(0 <= step <= m);
    assert(clamp(d) == d);
    if d >= 0 {
        assert(clamp(d) * t == m * t);
        assert(lerp(a, b, t) == a + step);
    } else {
        assert(clamp(d) * t == -(m * t)) by (nonlinear_arith)
            requires
                clamp(d) == d,
                d == -m,
        ;
        assert(quot(clamp(d) * t, SCALE as int) == -step);
        assert(lerp(a, b, t) == a - step);
    }
}

/// A drag brings a point no farther from the pointer: after covering the
/// fraction `t`, from zero to one, of the way to `pointer`, the point lies
/// between where it was and the pointer in each coordinate, its exact
/// squared distance and its measured distance to the pointer have not
/// grown, and the squared distance has strictly shrunk as soon as the way
/// in one coordinate, times the fraction, reaches one raw step.
pub proof fn lemma_drag_closer(p: Vec2, pointer: Vec2, t: i64)
    requires
        0 <= t <= SCALE,
        p.in_world(),
        pointer.in_world(),
        in_range(pointer.x - p.x),
        in_range(pointer.y - p.y),
    ensures
        lerp_vec2(p, pointer, t).in_world(),
        dist_sq(lerp_vec2(p, pointer, t), pointer) <= dist_sq(p, pointer),
        lerp_vec2(p, pointer, t).distance(pointer) <= p.distance(pointer),
        abs_of(pointer.x - p.x) * t >= SCALE || abs_of(pointer.y - p.y) * t >= SCALE ==> dist_sq(
            lerp_vec2(p, pointer, t),
            pointer,
        ) < dist_sq(p, pointer),
{
    let q = lerp_vec2(p, pointer, t);
    lemma_lerp_between(p.x, pointer.x, t);
    lemma_lerp_between(p.y, pointer.y, t);
    lemma_closer_coordinate(p.x as int, q.x as int, pointer.x as int);
    lemma_closer_coordinate(p.y as int, q.y as int, pointer.y as int);
    lemma_distance_monotonic(q, pointer, p, pointer);
}

/// A coordinate `q` between `p` and `b` is no farther from `b` than `p`
/// is, and strictly closer unless it is `p`.
proof fn lemma_closer_coordinate(p: int, q: int, b: int)
    requires
        (p <= q <= b) || (b <= q <= p),
    ensures
        (q - b) * (q - b) <= (p - b) * (p - b),
        q != p ==> (q - b) * (q - b) < (p - b) * (p - b),
{
    assert((q - b) * (q - b) <= (p - b) * (p - b) && (q != p ==> (q - b) * (q - b) < (p - b) * (p
        - b))) by (nonlinear_arith)
        requires
            (p <= q <= b) || (b <= q <= p),
    ;
}

/// Squared distance of two points in raw steps, exact.
pub open spec fn dist_sq(p: Vec2, q: Vec2) -> int {
    (p.x - q.x) * (p.x - q.x) + (p.y - q.y) * (p.y - q.y)
}

/// Moving two points apart along their separation, each coordinate by twice
/// `c`, never brings them closer, and takes them strictly farther apart
/// unless `c` is null.
pub proof fn lemma_spread(dx: int, dy: int, c: Vec2)
    requires
        points_along(c, dx, dy),
    ensures
        (dx + 2 * c.x) * (dx + 2 * c.x) + (dy + 2 * c.y) * (dy + 2 * c.y) >= dx * dx + dy * dy,
        c != Vec2::zero() ==> (dx + 2 * c.x) * (dx + 2 * c.x) + (dy + 2 * c.y) * (dy + 2 * c.y) > dx
            * dx + dy * dy,
{
    let cx = c.x as int;
    let cy = c.y as int;
    assert((dx + 2 * cx) * (dx + 2 * cx) >= dx * dx && (cx != 0 ==> (dx + 2 * cx) * (dx + 2 * cx)
        > dx * dx)) by (nonlinear_arith)
        requires
            dx >= 0 ==> cx >= 0,
            dx <= 0 ==> cx <= 0,
    ;
    assert((dy + 2 * cy) * (dy + 2 * cy) >= dy * dy && (cy != 0 ==> (dy + 2 * cy) * (dy + 2 * cy)
        > dy * dy)) by (nonlinear_arith)
        requires
            dy >= 0 ==> cy >= 0,
            dy <= 0 ==> cy <= 0,
    ;
}

/// The measured distance of two points grows with the magnitude of each
/// coordinate of their separation.
pub proof fn lemma_distance_monotonic(p: Vec2, q: Vec2, r: Vec2, s: Vec2)
    requires
        (p.x - q.x) * (p.x - q.x) <= (r.x - s.x) * (r.x - s.x),
        (p.y - q.y) * (p.y - q.y) <= (r.y - s.y) * (r.y - s.y),
    ensures
        p.distance(q) <= r.distance(s),
{
    let d = p.minus(q);
    let e = r.minus(s);
    lemma_clamped_square(p.x - q.x, r.x - s.x);
    lemma_clamped_square(p.y - q.y, r.y - s.y);
    assert(d.norm_sq() >= 0) by (nonlinear_arith)
        requires
            d.norm_sq() == d.x * d.x + d.y * d.y,
    ;
    lemma_isqrt_monotonic(d.norm_sq(), e.norm_sq());
    lemma_length_bounds(d);
    lemma_length_bounds(e);
}

/// Saturation keeps the order of magnitudes.
pub proof fn lemma_clamped_square(a: int, b: int)
    requires
        a * a <= b * b,
    ensures
        clamp(a) * clamp(a) <= clamp(b) * clamp(b),
{
    let l = LIMIT as int;
    let ca = clamp(a) as int;
    let cb = clamp(b) as int;
    assert(ca * ca <= cb * cb) by (nonlinear_arith)
        requires
            a * a <= b * b,
            l > 0,
            ca == (if a < -l { -l } else if a > l { l } else { a }),
            cb == (if b < -l { -l } else if b > l { l } else { b }),
    ;
}

} // verus!
