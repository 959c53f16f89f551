use vstd::prelude::*;

use crate::fixed::{div_toward_zero, div_toward_zero_i128, sqrt_floor, sqrt_floor_u128, is_sqrt_floor, lemma_le_sqrt_floor, COORD_MAX, ONE};

verus! {

/// A point or a vector with integer coordinates.
#[derive(Clone, Copy, Debug, PartialEq, Eq, Structural)]
pub struct Vec3 {
    pub x: i64,
    pub y: i64,
    pub z: i64,
}

/// Dot product of two vectors.
pub open spec fn dot(a: Vec3, b: Vec3) -> int {
    a.x * b.x + a.y * b.y + a.z * b.z
}

/// Squared length of a vector.
pub open spec fn length_sq(a: Vec3) -> int {
    dot(a, a)
}

/// Each coordinate of `a` lies within `[-m, m]`.
pub open spec fn bounded(a: Vec3, m: int) -> bool {
    -m <= a.x <= m && -m <= a.y <= m && -m <= a.z <= m
}

/// `a` scaled to fixed-point length `ONE`: each coordinate is divided by
/// the length of `a` in fixed point (rounded down) and rounded toward zero.
/// The zero vector stays zero.
pub open spec fn normalized(a: Vec3) -> Vec3 {
    let len = sqrt_floor(length_sq(a) * (ONE * ONE));
    if length_sq(a) == 0 {
        a
    } else {
        Vec3 {
            x: div_toward_zero(a.x * (ONE * ONE), len) as i64,
            y: div_toward_zero(a.y * (ONE * ONE), len) as i64,
            z: div_toward_zero(a.z * (ONE * ONE), len) as i64,
        }
    }
}

proof fn lemma_square_bound(a: int, m: int)
    requires
        -m <= a <= m,
    ensures
        0 <= a * a <= m * m,
{
    assert(0 <= a * a <= m * m) by (nonlinear_arith)
        requires
            -m <= a <= m,
    ;
}

/// Bounds on a product whose factors are bounded.
pub proof fn lemma_product_bound(a: int, b: int, m: int, n: int)
    requires
        -m <= a <= m,
        -n <= b <= n,
    ensures
        -(m * n) <= a * b <= m * n,
{
    assert(-(m * n) <= a * b <= m * n) by (nonlinear_arith)
        requires
            -m <= a <= m,
            -n <= b <= n,
    ;
}

/// Bounds on a dot product whose factors are bounded.
pub proof fn lemma_dot_bound(a: Vec3, b: Vec3, m: int, n: int)
    requires
        bounded(a, m),
        bounded(b, n),
    ensures
        -3 * (m * n) <= dot(a, b) <= 3 * (m * n),
{
    lemma_product_bound(a.x as int, b.x as int, m, n);
    lemma_product_bound(a.y as int, b.y as int, m, n);
    lemma_product_bound(a.z as int, b.z as int, m, n);
}

/// Bounds on a squared length.
pub proof fn lemma_length_sq_bound(a: Vec3, m: int)
    requires
        bounded(a, m),
    ensures
        0 <= length_sq(a) <= 3 * (m * m),
{
    lemma_square_bound(a.x as int, m);
    lemma_square_bound(a.y as int, m);
    lemma_square_bound(a.z as int, m);
}

/// A coordinate of a normalized vector lies within `[-ONE, ONE]`; its
/// magnitude is the coordinate's magnitude scaled and rounded down.
proof fn lemma_normalized_coordinate(c: int, n: int, len: int)
    requires
        0 <= c * c <= n,
        is_sqrt_floor(n * (ONE * ONE), len),
        len > 0,
    ensures
        -ONE <= div_toward_zero(c * (ONE * ONE), len) <= ONE,
        abs_int(div_toward_zero(c * (ONE * ONE), len)) == (abs_int(c) * (ONE * ONE)) / len,
{
    let o = ONE as int;
    let a = abs_int(c);
    assert(a * a == c * c) by (nonlinear_arith)
        requires
            a == c || a == -c,
    ;
    assert((a * o) * (a * o) <= n * (o * o)) by (nonlinear_arith)
        requires
            a * a <= n,
    ;
    assert(0 <= a * o) by (nonlinear_arith)
        requires
            0 <= a,
            0 < o,
    ;
    lemma_le_sqrt_floor(n * (o * o), a * o);
    crate::fixed::lemma_sqrt_floor_unique(n * (o * o), len);
    assert(a * (o * o) <= len * o) by (nonlinear_arith)
        requires
            a * o <= len,
            0 <= a,
            0 < o,
    ;
    assert(0 <= (a * (o * o)) / len <= o) by (nonlinear_arith)
        requires
            0 <= a * (o * o) <= len * o,
            len > 0,
    ;
    if c < 0 {
        assert(c * (o * o) == -(a * (o * o)));
    }
}

/// Absolute value.
pub open spec fn abs_int(a: int) -> int {
    if a < 0 {
        -a
    } else {
        a
    }
}

/// The arithmetic behind the length of a normalized vector. With `len` the
/// floor square root of `n * o * o` and each `q` the floor of `b / len`,
/// where the squares of the `b` sum to `n * o^4`, the squares of the `q` sum
/// to at least `(o - 2)^2` and less than `(o + 1)^2`.
proof fn lemma_unit_length(
    n: int,
    len: int,
    o: int,
    b0: int,
    b1: int,
    b2: int,
    q0: int,
    q1: int,
    q2: int,
)
    requires
        o >= 2,
        n >= 1,
        is_sqrt_floor(n * (o * o), len),
        0 <= b0,
        0 <= b1,
        0 <= b2,
        0 <= q0,
        0 <= q1,
        0 <= q2,
        q0 * len <= b0 < (q0 + 1) * len,
        q1 * len <= b1 < (q1 + 1) * len,
        q2 * len <= b2 < (q2 + 1) * len,
        b0 * b0 + b1 * b1 + b2 * b2 == n * (o * o) * (o * o),
    ensures
        (o - 2) * (o - 2) <= q0 * q0 + q1 * q1 + q2 * q2 < (o + 1) * (o + 1),
{
    let big = n * (o * o);
    assert(o * o <= big) by (nonlinear_arith)
        requires
            n >= 1,
            big == n * (o * o),
    ;
    lemma_le_sqrt_floor(big, o);
    crate::fixed::lemma_sqrt_floor_unique(big, len);
    assert(len >= o);
    let qq = q0 * q0 + q1 * q1 + q2 * q2;
    let ll = len * len;
    // upper bound
    assert(q0 * q0 * ll <= b0 * b0) by (nonlinear_arith)
        requires
            0 <= q0 * len <= b0,
            ll == len * len,
    ;
    assert(q1 * q1 * ll <= b1 * b1) by (nonlinear_arith)
        requires
            0 <= q1 * len <= b1,
            ll == len * len,
    ;
    assert(q2 * q2 * ll <= b2 * b2) by (nonlinear_arith)
        requires
            0 <= q2 * len <= b2,
            ll == len * len,
    ;
    assert(qq * ll <= big * (o * o)) by (nonlinear_arith)
        requires
            q0 * q0 * ll <= b0 * b0,
            q1 * q1 * ll <= b1 * b1,
            q2 * q2 * ll <= b2 * b2,
            b0 * b0 + b1 * b1 + b2 * b2 == big * (o * o),
            qq == q0 * q0 + q1 * q1 + q2 * q2,
    ;
    assert(big * (o * o) < ((len + 1) * (len + 1)) * (o * o)) by (nonlinear_arith)
        requires
            big < (len + 1) * (len + 1),
            o >= 2,
    ;
    assert((len + 1) * o <= len * (o + 1)) by (nonlinear_arith)
        requires
            len >= o,
    ;
    assert(ll > 0) by (nonlinear_arith)
        requires
            len >= o,
            o >= 2,
            ll == len * len,
    ;
    assert(((len + 1) * (len + 1)) * (o * o) <= ll * ((o + 1) * (o + 1))) by (nonlinear_arith)
        requires
            0 <= (len + 1) * o <= len * (o + 1),
            ll == len * len,
    ;
    assert(qq < (o + 1) * (o + 1)) by (nonlinear_arith)
        requires
            qq * ll < ll * ((o + 1) * (o + 1)),
            ll > 0,
    ;
    // lower bound
    let pp = (q0 + 1) * (q0 + 1) + (q1 + 1) * (q1 + 1) + (q2 + 1) * (q2 + 1);
    assert(b0 * b0 <= (q0 + 1) * (q0 + 1) * ll) by (nonlinear_arith)
        requires
            0 <= b0 < (q0 + 1) * len,
            ll == len * len,
    ;
    assert(b1 * b1 <= (q1 + 1) * (q1 + 1) * ll) by (nonlinear_arith)
        requires
            0 <= b1 < (q1 + 1) * len,
            ll == len * len,
    ;
    assert(b2 * b2 < (q2 + 1) * (q2 + 1) * ll) by (nonlinear_arith)
        requires
            0 <= b2 < (q2 + 1) * len,
            ll == len * len,
    ;
    assert(big * (o * o) < pp * ll) by (nonlinear_arith)
        requires
            b0 * b0 <= (q0 + 1) * (q0 + 1) * ll,
            b1 * b1 <= (q1 + 1) * (q1 + 1) * ll,
            b2 * b2 < (q2 + 1) * (q2 + 1) * ll,
            b0 * b0 + b1 * b1 + b2 * b2 == big * (o * o),
            pp == (q0 + 1) * (q0 + 1) + (q1 + 1) * (q1 + 1) + (q2 + 1) * (q2 + 1),
    ;
    assert(ll * (o * o) <= big * (o * o)) by (nonlinear_arith)
        requires
            ll <= big,
    ;
    assert(o * o < pp) by (nonlinear_arith)
        requires
            ll * (o * o) < pp * ll,
            ll > 0,
    ;
    let sum = q0 + q1 + q2;
    assert(pp == qq + 2 * sum + 3) by (nonlinear_arith)
        requires
            pp == (q0 + 1) * (q0 + 1) + (q1 + 1) * (q1 + 1) + (q2 + 1) * (q2 + 1),
            qq == q0 * q0 + q1 * q1 + q2 * q2,
            sum == q0 + q1 + q2,
    ;
    assert(sum * sum <= 3 * qq) by (nonlinear_arith)
        requires
            qq == q0 * q0 + q1 * q1 + q2 * q2,
            sum == q0 + q1 + q2,
    ;
    let m = o - 2;
    if qq < m * m {
        assert(sum >= 2 * m + 2) by (nonlinear_arith)
            requires
                o * o < qq + 2 * sum + 3,
                qq < m * m,
                m == o - 2,
        ;
        assert(sum * sum >= (2 * m + 2) * (2 * m + 2)) by (nonlinear_arith)
            requires
                sum >= 2 * m + 2,
                m >= 0,
        ;
        assert(false) by (nonlinear_arith)
            requires
                sum * sum >= (2 * m + 2) * (2 * m + 2),
                sum * sum <= 3 * qq,
                qq < m * m,
                m >= 0,
        ;
    }
}

impl Vec3 {
    pub fn new(x: i64, y: i64, z: i64) -> (r: Vec3)
        ensures
            r == (Vec3 { x, y, z }),
    {
        Vec3 { x, y, z }
    }

    /// The zero vector.
    pub open spec fn zero_spec() -> Vec3 {
        Vec3 { x: 0, y: 0, z: 0 }
    }

    pub fn zero() -> (r: Vec3)
        ensures
            r == Vec3::zero_spec(),
    {
        Vec3 { x: 0, y: 0, z: 0 }
    }

    /// Coordinate-wise sum.
    pub fn add(self, o: Vec3) -> (r: Vec3)
        requires
            bounded(self, COORD_MAX * 1024),
            bounded(o, COORD_MAX * 1024),
        ensures
            r.x == self.x + o.x,
            r.y == self.y + o.y,
            r.z == self.z + o.z,
    {
        Vec3 { x: self.x + o.x, y: self.y + o.y, z: self.z + o.z }
    }

    /// Coordinate-wise difference.
    pub fn sub(self, o: Vec3) -> (r: Vec3)
        requires
            bounded(self, COORD_MAX * 1024),
            bounded(o, COORD_MAX * 1024),
        ensures
            r.x == self.x - o.x,
            r.y == self.y - o.y,
            r.z == self.z - o.z,
    {
        Vec3 { x: self.x - o.x, y: self.y - o.y, z: self.z - o.z }
    }

    /// Each coordinate multiplied by `k`.
    pub fn scale(self, k: i64) -> (r: Vec3)
        requires
            bounded(self, COORD_MAX as int),
            -COORD_MAX <= k <= COORD_MAX,
        ensures
            r.x == self.x * k,
            r.y == self.y * k,
            r.z == self.z * k,
    {
        proof {
            lemma_product_bound(self.x as int, k as int, COORD_MAX as int, COORD_MAX as int);
            lemma_product_bound(self.y as int, k as int, COORD_MAX as int, COORD_MAX as int);
            lemma_product_bound(self.z as int, k as int, COORD_MAX as int, COORD_MAX as int);
        }
        Vec3 { x: self.x * k, y: self.y * k, z: self.z * k }
    }

    /// Dot product.
    pub fn dot(self, o: Vec3) -> (r: i128)
        requires
            bounded(self, 0x100_0000_0000),
            bounded(o, 0x100_0000_0000),
        ensures
            r == dot(self, o),
    {
        proof {
            let m: int = 0x100_0000_0000;
            lemma_product_bound(self.x as int, o.x as int, m, m);
            lemma_product_bound(self.y as int, o.y as int, m, m);
            lemma_product_bound(self.z as int, o.z as int, m, m);
            assert(m * m == 0x1_0000_0000_0000_0000_0000);
        }
        (self.x as i128) * (o.x as i128) + (self.y as i128) * (o.y as i128) + (self.z as i128) * (
        o.z as i128)
    }

    /// The length, rounded down.
    pub fn length(self) -> (r: i64)
        requires
            bounded(self, COORD_MAX * 1024),
        ensures
            r == sqrt_floor(length_sq(self)),
    {
        let n = self.dot(self);
        proof {
            let m: int = 0x4000_0000;
            lemma_length_sq_bound(self, m);
            assert(3 * (m * m) < 0x1_0000_0000_0000_0000_0000);
        }
        sqrt_floor_u128(n as u128) as i64
    }

    /// The vector scaled to fixed-point length `ONE`, rounded toward zero;
    /// the zero vector is returned unchanged. A vector that is not zero
    /// gives one whose squared length lies in `[(ONE - 2)^2, (ONE + 1)^2)`.
    pub fn normalize(self) -> (r: Vec3)
        requires
            bounded(self, COORD_MAX * 1024),
        ensures
            r == normalized(self),
            bounded(r, ONE as int),
            length_sq(self) != 0 ==> (ONE - 2) * (ONE - 2) <= length_sq(r) < (ONE + 1) * (ONE
                + 1),
    {
        let n = self.dot(self);
        let o = ONE as i128;
        proof {
            let m: int = 0x4000_0000;
            lemma_length_sq_bound(self, m);
            assert(ONE * ONE == 0x100_0000);
            assert(n * (ONE * ONE) <= 3 * (m * m) * 0x100_0000) by (nonlinear_arith)
                requires
                    0 <= n <= 3 * (m * m),
                    ONE * ONE == 0x100_0000,
            ;
            assert(3 * (m * m) * 0x100_0000 < 0x1000_0000_0000_0000_0000_0000_0000_0000);
        }
        if n == 0 {
            proof {
                assert(self.x * self.x >= 0 && self.y * self.y >= 0 && self.z * self.z >= 0) by (nonlinear_arith);
                assert(self.x * self.x == 0 ==> self.x == 0) by (nonlinear_arith);
                assert(self.y * self.y == 0 ==> self.y == 0) by (nonlinear_arith);
                assert(self.z * self.z == 0 ==> self.z == 0) by (nonlinear_arith);
            }
            return self;
        }
        let scaled = n * (o * o);
        assert(scaled >= 1) by (nonlinear_arith)
            requires
                n >= 1,
                o == 4096,
                scaled == n * (o * o),
        ;
        let len = sqrt_floor_u128(scaled as u128) as i128;
        assert(len > 0) by (nonlinear_arith)
            requires
                scaled < (len + 1) * (len + 1),
                scaled >= 1,
                len >= 0,
        ;
        proof {
            lemma_square_bound(self.x as int, COORD_MAX * 1024);
            lemma_square_bound(self.y as int, COORD_MAX * 1024);
            lemma_square_bound(self.z as int, COORD_MAX * 1024);
            lemma_normalized_coordinate(self.x as int, n as int, len as int);
            lemma_normalized_coordinate(self.y as int, n as int, len as int);
            lemma_normalized_coordinate(self.z as int, n as int, len as int);
        }
        let x = div_toward_zero_i128(self.x as i128 * (o * o), len);
        let y = div_toward_zero_i128(self.y as i128 * (o * o), len);
        let z = div_toward_zero_i128(self.z as i128 * (o * o), len);
        let r = Vec3 { x: x as i64, y: y as i64, z: z as i64 };
        proof {
            let oo = ONE * ONE;
            let (b0, b1, b2) = (abs_int(self.x as int) * oo, abs_int(self.y as int) * oo, abs_int(
                self.z as int,
            ) * oo);
            let (q0, q1, q2) = (abs_int(x as int), abs_int(y as int), abs_int(z as int));
            lemma_floor_division(b0, len as int);
            lemma_floor_division(b1, len as int);
            lemma_floor_division(b2, len as int);
            let k = oo * oo;
            lemma_scaled_square(self.x as int, oo);
            lemma_scaled_square(self.y as int, oo);
            lemma_scaled_square(self.z as int, oo);
            let (sx, sy, sz) = (self.x * self.x, self.y * self.y, self.z * self.z);
            assert((sx + sy + sz) * k == sx * k + sy * k + sz * k) by (nonlinear_arith);
            assert(n * oo * oo == (sx + sy + sz) * k) by (nonlinear_arith)
                requires
                    n == sx + sy + sz,
                    k == oo * oo,
            ;
            lemma_unit_length(n as int, len as int, ONE as int, b0, b1, b2, q0, q1, q2);
            assert(q0 * q0 == x * x && q1 * q1 == y * y && q2 * q2 == z * z) by (nonlinear_arith)
                requires
                    q0 == x || q0 == -x,
                    q1 == y || q1 == -y,
                    q2 == z || q2 == -z,
            ;
        }
        r
    }
}

proof fn lemma_scaled_square(c: int, oo: int)
    ensures
        (abs_int(c) * oo) * (abs_int(c) * oo) == (c * c) * (oo * oo),
{
    let a = abs_int(c);
    assert((a * oo) * (a * oo) == (c * c) * (oo * oo)) by (nonlinear_arith)
        requires
            a == c || a == -c,
    ;
}

/// `q` is the floor of `b / d`: `q * d <= b < (q + 1) * d`.
proof fn lemma_floor_division(b: int, d: int)
    requires
        0 <= b,
        0 < d,
    ensures
        0 <= b / d,
        (b / d) * d <= b < (b / d + 1) * d,
{
    vstd::arithmetic::div_mod::lemma_fundamental_div_mod(b, d);
    vstd::arithmetic::div_mod::lemma_mod_pos_bound(b, d);
    assert((b / d) * d <= b < (b / d + 1) * d) by (nonlinear_arith)
        requires
            b == d * (b / d) + b % d,
            0 <= b % d < d,
    ;
    assert(0 <= b / d) by (nonlinear_arith)
        requires
            0 <= b,
            0 < d,
    ;
}

/// A half-line: the points `origin + t * direction / ONE` for `t >= 0`.
#[derive(Clone, Copy, Debug, PartialEq, Eq, Structural)]
pub struct Ray {
    pub origin: Vec3,
    pub direction: Vec3,
}

impl Ray {
    pub fn new(origin: Vec3, direction: Vec3) -> (r: Ray)
        ensures
            r == (Ray { origin, direction }),
    {
        Ray { origin, direction }
    }

    /// The origin lies within the coordinate range and the direction has a
    /// fixed-point length of about `ONE`: each coordinate within `[-ONE, ONE]`
    /// and a squared length of at least half of `ONE * ONE`.
    pub open spec fn wf(self) -> bool {
        &&& bounded(self.origin, COORD_MAX as int)
        &&& bounded(self.direction, ONE as int)
        &&& 2 * length_sq(self.direction) >= ONE * ONE
    }
}

} // verus!
