use vstd::prelude::*;
use vstd::arithmetic::div_mod::lemma_fundamental_div_mod;

verus! {

/// A 3D vector with exact integer coordinates.
///
/// The collision core works over exact integer arithmetic: shape
/// coordinates are plain integers bounded by `COORD_LIMIT`, every dot,
/// cross and difference is computed exactly, and the few quantities that
/// are genuinely fractional (interpolation parameters, witness points,
/// the minimum translation vector) are carried in fixed point with
/// denominator `SCALE`.
#[derive(Clone, Copy, Debug, PartialEq, Eq, Structural)]
pub struct Int3 {
    pub x: i128,
    pub y: i128,
    pub z: i128,
}

/// Largest coordinate magnitude accepted for a shape vertex.
pub const COORD_LIMIT: i128 = 512;

/// Largest component magnitude of a vertex of the Minkowski difference.
pub const DIFF_LIMIT: i128 = 1024;

/// Largest component magnitude accepted for a search direction.
pub const DIR_LIMIT: i128 = 68719476736;

/// Denominator of all fixed-point values (interpolation parameters,
/// witness points, the minimum translation vector and its magnitude).
pub const SCALE: i128 = 1048576;

/// Largest component magnitude of a fixed-point point produced by the
/// closest-feature reconstructions.
pub const FP_BOUND: i128 = 6144 * SCALE;

/// Largest numerator or denominator accepted by `ratio_fp`.
pub const RATIO_LIMIT: i128 = 40564819207303340847894502572032;

/// Bound on the first argument of `dot`.
pub const DOT_BIG: i128 = 1180591620717411303424;

/// Bound on the second argument of `dot` and on the argument of
/// `sqr_magnitude`.
pub const DOT_SMALL: i128 = 4503599627370496;

/// Bound on both arguments of `cross`.
pub const CROSS_LIMIT: i128 = 4611686018427387904;

/// Bound on the arguments of `triple_cross`.
pub const TRIPLE_LIMIT: i128 = 536870912;

/// Every component of `v` lies within `[-m, m]`.
pub open spec fn in_bound(v: Int3, m: int) -> bool {
    &&& -m <= v.x <= m
    &&& -m <= v.y <= m
    &&& -m <= v.z <= m
}

/// Mathematical dot product.
pub open spec fn dot_s(a: Int3, b: Int3) -> int {
    a.x * b.x + a.y * b.y + a.z * b.z
}

/// Mathematical cross product.
pub open spec fn cross_s(a: Int3, b: Int3) -> Int3 {
    Int3 {
        x: (a.y * b.z - a.z * b.y) as i128,
        y: (a.z * b.x - a.x * b.z) as i128,
        z: (a.x * b.y - a.y * b.x) as i128,
    }
}

/// Componentwise difference.
pub open spec fn sub_s(a: Int3, b: Int3) -> Int3 {
    Int3 { x: (a.x - b.x) as i128, y: (a.y - b.y) as i128, z: (a.z - b.z) as i128 }
}

/// Componentwise sum.
pub open spec fn add_s(a: Int3, b: Int3) -> Int3 {
    Int3 { x: (a.x + b.x) as i128, y: (a.y + b.y) as i128, z: (a.z + b.z) as i128 }
}

/// Componentwise negation.
pub open spec fn neg_s(a: Int3) -> Int3 {
    Int3 { x: (-a.x) as i128, y: (-a.y) as i128, z: (-a.z) as i128 }
}

/// Squared Euclidean magnitude.
pub open spec fn sqr_s(a: Int3) -> int {
    dot_s(a, a)
}

/// Normal of the triangle `(a, b, c)`: the cross product of its two
/// edges leaving `a`.
pub open spec fn tri_normal_s(a: Int3, b: Int3, c: Int3) -> Int3 {
    cross_s(sub_s(b, a), sub_s(c, a))
}

/// The vector triple product `(a x b) x c`.
pub open spec fn triple_cross_s(a: Int3, b: Int3, c: Int3) -> Int3 {
    cross_s(cross_s(a, b), c)
}

/// Truncating (round toward zero) division, for a positive divisor.
pub open spec fn tdiv_s(a: int, b: int) -> int {
    if a >= 0 {
        a / b
    } else {
        -((-a) / b)
    }
}

/// The interpolation parameter `num / den` in fixed point, clamped to
/// `[0, SCALE]`.  A non-positive denominator clamps to 0, which also
/// covers the degenerate edge whose squared length is zero, so no
/// division by zero can arise downstream.
pub open spec fn ratio_fp_s(num: int, den: int) -> int {
    if den <= 0 || num <= 0 {
        0
    } else if num >= den {
        SCALE as int
    } else {
        num * SCALE / den
    }
}

/// Linear interpolation between two integer points, by a fixed-point
/// parameter `t` in `[0, SCALE]`; the result is in fixed point.
pub open spec fn lerp_pts_s(p0: Int3, p1: Int3, t: int) -> Int3 {
    Int3 {
        x: (p0.x * SCALE + (p1.x - p0.x) * t) as i128,
        y: (p0.y * SCALE + (p1.y - p0.y) * t) as i128,
        z: (p0.z * SCALE + (p1.z - p0.z) * t) as i128,
    }
}

/// Linear interpolation between two fixed-point points, by a fixed-point
/// parameter `t` in `[0, SCALE]`.
pub open spec fn lerp_fp_s(a: Int3, b: Int3, t: int) -> Int3 {
    Int3 {
        x: (a.x + tdiv_s((b.x - a.x) * t, SCALE as int)) as i128,
        y: (a.y + tdiv_s((b.y - a.y) * t, SCALE as int)) as i128,
        z: (a.z + tdiv_s((b.z - a.z) * t, SCALE as int)) as i128,
    }
}

/// Clamp to `[-FP_BOUND, FP_BOUND]`.
pub open spec fn clamp_fp_s(v: int) -> int {
    if v < -FP_BOUND {
        -FP_BOUND as int
    } else if v > FP_BOUND {
        FP_BOUND as int
    } else {
        v
    }
}

/// The point of the plane through `pt` with normal `dir` closest to the
/// origin, in fixed point: `dir * (dir . pt) / |dir|^2`.  Each component
/// is clamped to `[-FP_BOUND, FP_BOUND]`; by the Cauchy-Schwarz
/// inequality the true projection never leaves that range when `pt` is a
/// Minkowski-difference vertex, so the clamp only tames the rounding of
/// degenerate inputs.  A zero normal yields the origin.
pub open spec fn proj_fp_s(dir: Int3, pt: Int3) -> Int3 {
    let dp = dot_s(dir, pt);
    let dn = sqr_s(dir);
    if dn == 0 {
        Int3 { x: 0, y: 0, z: 0 }
    } else {
        Int3 {
            x: clamp_fp_s(tdiv_s(dir.x * dp * SCALE, dn)) as i128,
            y: clamp_fp_s(tdiv_s(dir.y * dp * SCALE, dn)) as i128,
            z: clamp_fp_s(tdiv_s(dir.z * dp * SCALE, dn)) as i128,
        }
    }
}

/// `r * r <= n < (r + 1) * (r + 1)`.
pub open spec fn is_isqrt(n: int, r: int) -> bool {
    &&& 0 <= r
    &&& r * r <= n
    &&& n < (r + 1) * (r + 1)
}

/// The integer square root as a function: the unique `r` with
/// `is_isqrt(n, r)`.
pub open spec fn isqrt_s(n: int) -> int {
    choose|r: int| is_isqrt(n, r)
}

/// The integer square root is unique.
pub proof fn lemma_isqrt_unique(n: int, r1: int, r2: int)
    requires
        is_isqrt(n, r1),
        is_isqrt(n, r2),
    ensures
        r1 == r2,
{
    assert(r1 == r2) by (nonlinear_arith)
        requires
            0 <= r1 && r1 * r1 <= n && n < (r1 + 1) * (r1 + 1),
            0 <= r2 && r2 * r2 <= n && n < (r2 + 1) * (r2 + 1),
    ;
}

/// A value satisfying `is_isqrt` is `isqrt_s`.
pub proof fn lemma_isqrt_is(n: int, r: int)
    requires
        is_isqrt(n, r),
    ensures
        r == isqrt_s(n),
{
    assert(is_isqrt(n, isqrt_s(n)));
    lemma_isqrt_unique(n, r, isqrt_s(n));
}

/// `|x * y| <= mx * my` when `|x| <= mx` and `|y| <= my`.
pub proof fn lemma_mul_bound(x: int, y: int, mx: int, my: int)
    requires
        -mx <= x <= mx,
        -my <= y <= my,
        0 <= mx,
        0 <= my,
    ensures
        -(mx * my) <= x * y <= mx * my,
{
    assert(-(mx * my) <= x * y <= mx * my) by (nonlinear_arith)
        requires
            -mx <= x <= mx,
            -my <= y <= my,
            0 <= mx,
            0 <= my,
    ;
}

/// A dot product of vectors bounded by `ma` and `mb` is bounded by
/// `3 * ma * mb`.
pub proof fn lemma_dot_bound(a: Int3, b: Int3, ma: int, mb: int)
    requires
        in_bound(a, ma),
        in_bound(b, mb),
        0 <= ma,
        0 <= mb,
    ensures
        -(3 * ma * mb) <= dot_s(a, b) <= 3 * ma * mb,
{
    lemma_mul_bound(a.x as int, b.x as int, ma, mb);
    lemma_mul_bound(a.y as int, b.y as int, ma, mb);
    lemma_mul_bound(a.z as int, b.z as int, ma, mb);
    assert(3 * ma * mb == 3 * (ma * mb)) by (nonlinear_arith);
}

/// A cross product of vectors bounded by `ma` and `mb` is bounded by
/// `2 * ma * mb`.
pub proof fn lemma_cross_bound(a: Int3, b: Int3, ma: int, mb: int)
    requires
        in_bound(a, ma),
        in_bound(b, mb),
        0 <= ma,
        0 <= mb,
        2 * ma * mb <= i128::MAX as int,
    ensures
        in_bound(cross_s(a, b), 2 * ma * mb),
{
    lemma_mul_bound(a.y as int, b.z as int, ma, mb);
    lemma_mul_bound(a.z as int, b.y as int, ma, mb);
    lemma_mul_bound(a.z as int, b.x as int, ma, mb);
    lemma_mul_bound(a.x as int, b.z as int, ma, mb);
    lemma_mul_bound(a.x as int, b.y as int, ma, mb);
    lemma_mul_bound(a.y as int, b.x as int, ma, mb);
    assert(2 * ma * mb == 2 * (ma * mb)) by (nonlinear_arith);
}

/// Division of a nonnegative value by a positive one neither grows it
/// nor makes it negative.
pub proof fn lemma_div_bound(a: int, b: int)
    requires
        0 <= a,
        1 <= b,
    ensures
        0 <= a / b <= a,
{
    lemma_fundamental_div_mod(a, b);
    assert(0 <= a / b <= a) by (nonlinear_arith)
        requires
            0 <= a,
            1 <= b,
            a == b * (a / b) + a % b,
            0 <= a % b < b,
    ;
}

/// A quotient is below `k` when the dividend is below `d * k`.
pub proof fn lemma_div_lt(x: int, d: int, k: int)
    requires
        0 <= x,
        x < d * k,
        0 < d,
        0 < k,
    ensures
        x / d < k,
{
    lemma_fundamental_div_mod(x, d);
    assert(x / d < k) by (nonlinear_arith)
        requires
            0 <= x,
            x < d * k,
            0 < d,
            0 < k,
            x == d * (x / d) + x % d,
            0 <= x % d < d,
    ;
}

/// A truncated quotient is within `m` when the dividend is within `m * d`.
pub proof fn lemma_tdiv_quot_bound(x: int, d: int, m: int)
    requires
        -(m * d) <= x <= m * d,
        1 <= d,
        0 <= m,
    ensures
        -m <= tdiv_s(x, d) <= m,
{
    assert(m * d < d * (m + 1)) by (nonlinear_arith)
        requires
            1 <= d,
            0 <= m,
    ;
    if x >= 0 {
        lemma_div_bound(x, d);
        lemma_div_lt(x, d, m + 1);
    } else {
        lemma_div_bound(-x, d);
        lemma_div_lt(-x, d, m + 1);
    }
}

/// Truncating division by a positive divisor keeps any symmetric bound.
pub proof fn lemma_tdiv_bound(x: int, d: int, m: int)
    requires
        -m <= x <= m,
        1 <= d,
        0 <= m,
    ensures
        -m <= tdiv_s(x, d) <= m,
        x >= 0 ==> 0 <= tdiv_s(x, d),
        x < 0 ==> tdiv_s(x, d) <= 0,
{
    if x >= 0 {
        lemma_div_bound(x, d);
    } else {
        lemma_div_bound(-x, d);
    }
}

impl Int3 {
    /// The zero vector.
    pub fn zero() -> (r: Int3)
        ensures
            r == (Int3 { x: 0, y: 0, z: 0 }),
    {
        Int3 { x: 0, y: 0, z: 0 }
    }

    /// Zero test: only the x and y components are examined, never z.
    /// Deliberate: the degenerate-direction fallback and the region
    /// classification are tuned to exactly this test.
    pub fn is_zero(&self) -> (r: bool)
        ensures
            r == (self.x == 0 && self.y == 0),
    {
        self.x == 0 && self.y == 0
    }

    /// Dot product, exact.
    pub fn dot(&self, b: &Int3) -> (r: i128)
        requires
            in_bound(*self, DOT_BIG as int),
            in_bound(*b, DOT_SMALL as int),
        ensures
            r == dot_s(*self, *b),
    {
        proof {
            lemma_mul_bound(self.x as int, b.x as int, DOT_BIG as int, DOT_SMALL as int);
            lemma_mul_bound(self.y as int, b.y as int, DOT_BIG as int, DOT_SMALL as int);
            lemma_mul_bound(self.z as int, b.z as int, DOT_BIG as int, DOT_SMALL as int);
        }
        self.x * b.x + self.y * b.y + self.z * b.z
    }

    /// Squared magnitude, exact.
    pub fn sqr_magnitude(&self) -> (r: i128)
        requires
            in_bound(*self, DOT_SMALL as int),
        ensures
            r == sqr_s(*self),
            r >= 0,
    {
        proof {
            lemma_mul_bound(self.x as int, self.x as int, DOT_SMALL as int, DOT_SMALL as int);
            lemma_mul_bound(self.y as int, self.y as int, DOT_SMALL as int, DOT_SMALL as int);
            lemma_mul_bound(self.z as int, self.z as int, DOT_SMALL as int, DOT_SMALL as int);
            assert(self.x * self.x >= 0) by (nonlinear_arith);
            assert(self.y * self.y >= 0) by (nonlinear_arith);
            assert(self.z * self.z >= 0) by (nonlinear_arith);
        }
        self.x * self.x + self.y * self.y + self.z * self.z
    }

    /// Cross product, exact.
    pub fn cross(&self, b: &Int3) -> (r: Int3)
        requires
            in_bound(*self, CROSS_LIMIT as int),
            in_bound(*b, CROSS_LIMIT as int),
        ensures
            r == cross_s(*self, *b),
    {
        proof {
            lemma_mul_bound(self.y as int, b.z as int, CROSS_LIMIT as int, CROSS_LIMIT as int);
            lemma_mul_bound(self.z as int, b.y as int, CROSS_LIMIT as int, CROSS_LIMIT as int);
            lemma_mul_bound(self.z as int, b.x as int, CROSS_LIMIT as int, CROSS_LIMIT as int);
            lemma_mul_bound(self.x as int, b.z as int, CROSS_LIMIT as int, CROSS_LIMIT as int);
            lemma_mul_bound(self.x as int, b.y as int, CROSS_LIMIT as int, CROSS_LIMIT as int);
            lemma_mul_bound(self.y as int, b.x as int, CROSS_LIMIT as int, CROSS_LIMIT as int);
        }
        Int3 {
            x: self.y * b.z - self.z * b.y,
            y: self.z * b.x - self.x * b.z,
            z: self.x * b.y - self.y * b.x,
        }
    }

    /// Normal of the triangle `(self, b, c)`.
    pub fn triangle_normal(&self, b: &Int3, c: &Int3) -> (r: Int3)
        requires
            in_bound(*self, 2305843009213693952),
            in_bound(*b, 2305843009213693952),
            in_bound(*c, 2305843009213693952),
        ensures
            r == tri_normal_s(*self, *b, *c),
    {
        let l0 = b.sub(self);
        let l1 = c.sub(self);
        l0.cross(&l1)
    }

    /// Triple product `(self x b) x c`.
    pub fn triple_cross(&self, b: &Int3, c: &Int3) -> (r: Int3)
        requires
            in_bound(*self, TRIPLE_LIMIT as int),
            in_bound(*b, TRIPLE_LIMIT as int),
            in_bound(*c, TRIPLE_LIMIT as int),
        ensures
            r == triple_cross_s(*self, *b, *c),
    {
        proof {
            lemma_cross_bound(*self, *b, TRIPLE_LIMIT as int, TRIPLE_LIMIT as int);
        }
        let inner = self.cross(b);
        inner.cross(c)
    }

    /// Componentwise difference.
    pub fn sub(&self, b: &Int3) -> (r: Int3)
        requires
            in_bound(*self, CROSS_LIMIT as int),
            in_bound(*b, CROSS_LIMIT as int),
        ensures
            r == sub_s(*self, *b),
    {
        Int3 { x: self.x - b.x, y: self.y - b.y, z: self.z - b.z }
    }

    /// Componentwise sum.
    pub fn add(&self, b: &Int3) -> (r: Int3)
        requires
            in_bound(*self, CROSS_LIMIT as int),
            in_bound(*b, CROSS_LIMIT as int),
        ensures
            r == add_s(*self, *b),
    {
        Int3 { x: self.x + b.x, y: self.y + b.y, z: self.z + b.z }
    }

    /// Componentwise negation.
    pub fn neg(&self) -> (r: Int3)
        requires
            in_bound(*self, CROSS_LIMIT as int),
        ensures
            r == neg_s(*self),
    {
        Int3 { x: -self.x, y: -self.y, z: -self.z }
    }
}

/// Truncating division, exact.
pub fn tdiv(a: i128, b: i128) -> (r: i128)
    requires
        b > 0,
        -0x40000000000000000000000000000000 < a,
    ensures
        r == tdiv_s(a as int, b as int),
{
    proof {
        if a >= 0 {
            lemma_div_bound(a as int, b as int);
        } else {
            lemma_div_bound(-(a as int), b as int);
        }
    }
    if a >= 0 {
        a / b
    } else {
        -((-a) / b)
    }
}

/// The interpolation parameter `num / den` in fixed point, clamped to
/// `[0, SCALE]`.
pub fn ratio_fp(num: i128, den: i128) -> (r: i128)
    requires
        -RATIO_LIMIT <= num <= RATIO_LIMIT,
        den <= RATIO_LIMIT,
    ensures
        r == ratio_fp_s(num as int, den as int),
        0 <= r <= SCALE,
{
    if den <= 0 || num <= 0 {
        0
    } else if num >= den {
        SCALE
    } else {
        proof {
            lemma_mul_bound(num as int, SCALE as int, RATIO_LIMIT as int, SCALE as int);
            lemma_div_bound(num as int * SCALE as int, den as int);
            assert(num * SCALE < den * SCALE) by (nonlinear_arith)
                requires
                    0 < num < den,
            ;
            lemma_div_lt(num as int * SCALE as int, den as int, SCALE as int);
        }
        num * SCALE / den
    }
}

/// Linear interpolation between two integer points by a fixed-point
/// parameter; exact (the parameter is already scaled, so no division
/// happens here).
pub fn lerp_pts_fp(p0: &Int3, p1: &Int3, t: i128) -> (r: Int3)
    requires
        in_bound(*p0, 2048),
        in_bound(*p1, 2048),
        0 <= t <= SCALE,
    ensures
        r == lerp_pts_s(*p0, *p1, t as int),
        in_bound(r, FP_BOUND as int),
{
    proof {
        lemma_mul_bound(p0.x as int, SCALE as int, 2048, 1048576);
        lemma_mul_bound(p0.y as int, SCALE as int, 2048, 1048576);
        lemma_mul_bound(p0.z as int, SCALE as int, 2048, 1048576);
        lemma_mul_bound(p1.x - p0.x, t as int, 4096, 1048576);
        lemma_mul_bound(p1.y - p0.y, t as int, 4096, 1048576);
        lemma_mul_bound(p1.z - p0.z, t as int, 4096, 1048576);
    }
    Int3 {
        x: p0.x * SCALE + (p1.x - p0.x) * t,
        y: p0.y * SCALE + (p1.y - p0.y) * t,
        z: p0.z * SCALE + (p1.z - p0.z) * t,
    }
}

/// Linear interpolation between two fixed-point points by a fixed-point
/// parameter.
pub fn lerp_fp(a: &Int3, b: &Int3, t: i128) -> (r: Int3)
    requires
        in_bound(*a, FP_BOUND as int),
        in_bound(*b, FP_BOUND as int),
        0 <= t <= SCALE,
    ensures
        r == lerp_fp_s(*a, *b, t as int),
        in_bound(r, 19327352832),
{
    proof {
        lemma_mul_bound(b.x - a.x, t as int, 12884901888, 1048576);
        lemma_mul_bound(b.y - a.y, t as int, 12884901888, 1048576);
        lemma_mul_bound(b.z - a.z, t as int, 12884901888, 1048576);
        lemma_tdiv_quot_bound((b.x - a.x) * t, SCALE as int, 12884901888);
        lemma_tdiv_quot_bound((b.y - a.y) * t, SCALE as int, 12884901888);
        lemma_tdiv_quot_bound((b.z - a.z) * t, SCALE as int, 12884901888);
    }
    Int3 {
        x: a.x + tdiv((b.x - a.x) * t, SCALE),
        y: a.y + tdiv((b.y - a.y) * t, SCALE),
        z: a.z + tdiv((b.z - a.z) * t, SCALE),
    }
}

/// An integer point carried into fixed point: every component times
/// `SCALE`.
pub open spec fn fp_of_s(v: Int3) -> Int3 {
    Int3 { x: (v.x * SCALE) as i128, y: (v.y * SCALE) as i128, z: (v.z * SCALE) as i128 }
}

/// Carry an integer point into fixed point.
pub fn fp_of(v: &Int3) -> (r: Int3)
    requires
        in_bound(*v, DIFF_LIMIT as int),
    ensures
        r == fp_of_s(*v),
        in_bound(r, 1073741824),
{
    proof {
        lemma_mul_bound(v.x as int, SCALE as int, 1024, 1048576);
        lemma_mul_bound(v.y as int, SCALE as int, 1024, 1048576);
        lemma_mul_bound(v.z as int, SCALE as int, 1024, 1048576);
    }
    Int3 { x: v.x * SCALE, y: v.y * SCALE, z: v.z * SCALE }
}

/// Clamp a fixed-point component to `[-FP_BOUND, FP_BOUND]`.
fn clamp_fp(v: i128) -> (r: i128)
    ensures
        r == clamp_fp_s(v as int),
{
    if v < -FP_BOUND {
        -FP_BOUND
    } else if v > FP_BOUND {
        FP_BOUND
    } else {
        v
    }
}

/// The point of the plane through `pt` with normal `dir` closest to the
/// origin, in fixed point (see `proj_fp_s`).
pub fn proj_fp(dir: &Int3, pt: &Int3) -> (r: Int3)
    requires
        in_bound(*dir, DIR_LIMIT as int),
        in_bound(*pt, DIFF_LIMIT as int),
    ensures
        r == proj_fp_s(*dir, *pt),
        in_bound(r, FP_BOUND as int),
{
    proof {
        lemma_dot_bound(*dir, *pt, 68719476736, 1024);
    }
    let dp = dir.dot(pt);
    let dn = dir.sqr_magnitude();
    if dn == 0 {
        Int3 { x: 0, y: 0, z: 0 }
    } else {
        proof {
            lemma_mul_bound(dir.x as int, dp as int, 68719476736, 211106232532992);
            lemma_mul_bound(dir.y as int, dp as int, 68719476736, 211106232532992);
            lemma_mul_bound(dir.z as int, dp as int, 68719476736, 211106232532992);
            lemma_mul_bound(dir.x as int * dp as int, SCALE as int, 14507109835375550096474112, 1048576);
            lemma_mul_bound(dir.y as int * dp as int, SCALE as int, 14507109835375550096474112, 1048576);
            lemma_mul_bound(dir.z as int * dp as int, SCALE as int, 14507109835375550096474112, 1048576);
            lemma_tdiv_bound(dir.x as int * dp as int * SCALE as int, dn as int, 15211807202738752817960438464512);
            lemma_tdiv_bound(dir.y as int * dp as int * SCALE as int, dn as int, 15211807202738752817960438464512);
            lemma_tdiv_bound(dir.z as int * dp as int * SCALE as int, dn as int, 15211807202738752817960438464512);
        }
        Int3 {
            x: clamp_fp(tdiv(dir.x * dp * SCALE, dn)),
            y: clamp_fp(tdiv(dir.y * dp * SCALE, dn)),
            z: clamp_fp(tdiv(dir.z * dp * SCALE, dn)),
        }
    }
}

/// Integer square root: the greatest `r` with `r * r <= n`.
pub fn isqrt(n: i128) -> (r: i128)
    requires
        0 <= n,
    ensures
        is_isqrt(n as int, r as int),
        r as int == isqrt_s(n as int),
{
    let mut lo: i128 = 0;
    let mut hi: i128 = 13043817825332782212;
    proof {
        assert((13043817825332782212int + 1) * (13043817825332782212int + 1) > i128::MAX as int)
            by (nonlinear_arith);
    }
    while lo < hi
        invariant
            0 <= lo <= hi <= 13043817825332782212,
            lo * lo <= n,
            n < (hi + 1) * (hi + 1),
        decreases hi - lo,
    {
        let mid = lo + (hi - lo + 1) / 2;
        proof {
            assert(lo < mid <= hi);
            lemma_mul_bound(mid as int, mid as int, 13043817825332782212int, 13043817825332782212int);
            assert(13043817825332782212int * 13043817825332782212int <= i128::MAX as int)
                by (nonlinear_arith);
        }
        if mid * mid <= n {
            lo = mid;
        } else {
            hi = mid - 1;
        }
    }
    proof {
        lemma_isqrt_is(n as int, lo as int);
    }
    lo
}

} // verus!
