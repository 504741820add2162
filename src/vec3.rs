use vstd::arithmetic::div_mod::lemma_fundamental_div_mod_converse;
use vstd::prelude::*;

verus! {

/// The fixed-point unit: a real value `v` is held as the integer `v * ONE`.
pub const ONE: i64 = 65536;

/// Largest magnitude of a world coordinate, a sphere radius or a ray direction
/// component that the intersection code accepts (4096 world units).
pub const COORD_MAX: i64 = 268435456;

/// A three-component vector used as point, direction and color.
#[derive(Clone, Copy, Debug, PartialEq, Eq, Structural)]
pub struct Vec3 {
    pub x: i64,
    pub y: i64,
    pub z: i64,
}

pub open spec fn abs(a: int) -> int {
    if a < 0 { -a } else { a }
}

pub open spec fn clamp_int(a: int, lo: int, hi: int) -> int {
    if a < lo { lo } else if a > hi { hi } else { a }
}

/// Integer square root: the largest `r` with `r * r <= n`.
pub open spec fn is_isqrt(n: int, r: int) -> bool {
    0 <= r && r * r <= n && n < (r + 1) * (r + 1)
}

impl Vec3 {
    /// Every component has magnitude at most `b`.
    pub open spec fn bounded(self, b: int) -> bool {
        abs(self.x as int) <= b && abs(self.y as int) <= b && abs(self.z as int) <= b
    }

    pub open spec fn dot_spec(self, o: Vec3) -> int {
        self.x * o.x + self.y * o.y + self.z * o.z
    }

    pub open spec fn neg_spec(self) -> Vec3 {
        Vec3 { x: -self.x as i64, y: -self.y as i64, z: -self.z as i64 }
    }

    pub open spec fn is_zero(self) -> bool {
        self.x == 0 && self.y == 0 && self.z == 0
    }

    /// The vector whose components are the floor of `c * num / den`.
    pub open spec fn scaled(self, num: int, den: int) -> (int, int, int) {
        ((self.x * num) / den, (self.y * num) / den, (self.z * num) / den)
    }

    pub open spec fn fits_i64(t: (int, int, int)) -> bool {
        i64::MIN <= t.0 <= i64::MAX && i64::MIN <= t.1 <= i64::MAX && i64::MIN <= t.2 <= i64::MAX
    }

    pub open spec fn same(self, t: (int, int, int)) -> bool {
        self.x == t.0 && self.y == t.1 && self.z == t.2
    }

    pub fn zero() -> (r: Vec3)
        ensures
            r.is_zero(),
    {
        Vec3 { x: 0, y: 0, z: 0 }
    }

    pub fn from_values(e0: i64, e1: i64, e2: i64) -> (r: Vec3)
        ensures
            r.x == e0 && r.y == e1 && r.z == e2,
    {
        Vec3 { x: e0, y: e1, z: e2 }
    }

    pub fn x(&self) -> (r: i64)
        ensures
            r == self.x,
    {
        self.x
    }

    pub fn y(&self) -> (r: i64)
        ensures
            r == self.y,
    {
        self.y
    }

    pub fn z(&self) -> (r: i64)
        ensures
            r == self.z,
    {
        self.z
    }

    /// Componentwise sum.
    pub fn add(self, o: Vec3) -> (r: Vec3)
        requires
            self.bounded(0x3fff_ffff_ffff_ffff),
            o.bounded(0x3fff_ffff_ffff_ffff),
        ensures
            r.x == self.x + o.x,
            r.y == self.y + o.y,
            r.z == self.z + o.z,
    {
        Vec3 { x: self.x + o.x, y: self.y + o.y, z: self.z + o.z }
    }

    /// Componentwise difference.
    pub fn sub(self, o: Vec3) -> (r: Vec3)
        requires
            self.bounded(0x3fff_ffff_ffff_ffff),
            o.bounded(0x3fff_ffff_ffff_ffff),
        ensures
            r.x == self.x - o.x,
            r.y == self.y - o.y,
            r.z == self.z - o.z,
    {
        Vec3 { x: self.x - o.x, y: self.y - o.y, z: self.z - o.z }
    }

    /// Componentwise negation.
    pub fn neg(self) -> (r: Vec3)
        requires
            self.bounded(i64::MAX as int),
        ensures
            r.x == -self.x,
            r.y == -self.y,
            r.z == -self.z,
            r == self.neg_spec(),
    {
        Vec3 { x: -self.x, y: -self.y, z: -self.z }
    }

    /// Each component multiplied by `num` and divided by `den`, rounding down.
    pub fn mul_div(self, num: i64, den: i64) -> (r: Vec3)
        requires
            den > 0,
            Self::fits_i64(self.scaled(num as int, den as int)),
        ensures
            r.same(self.scaled(num as int, den as int)),
    {
        let n = num as i128;
        let d = den as i128;
        proof {
            lemma_mul_fits(self.x, num);
            lemma_mul_fits(self.y, num);
            lemma_mul_fits(self.z, num);
        }
        let x = floor_div(self.x as i128 * n, d);
        let y = floor_div(self.y as i128 * n, d);
        let z = floor_div(self.z as i128 * n, d);
        Vec3 { x: x as i64, y: y as i64, z: z as i64 }
    }

    /// The dot product, exact in 128 bits.
    pub fn dot(vec1: &Self, vec2: &Self) -> (r: i128)
        requires
            vec1.bounded(0x0fff_ffff_ffff_ffff),
            vec2.bounded(0x0fff_ffff_ffff_ffff),
        ensures
            r == vec1.dot_spec(*vec2),
    {
        proof {
            lemma_product_bound(vec1.x as int, vec2.x as int, 0x0fff_ffff_ffff_ffff);
            lemma_product_bound(vec1.y as int, vec2.y as int, 0x0fff_ffff_ffff_ffff);
            lemma_product_bound(vec1.z as int, vec2.z as int, 0x0fff_ffff_ffff_ffff);
        }
        vec1.x as i128 * vec2.x as i128 + vec1.y as i128 * vec2.y as i128 + vec1.z as i128
            * vec2.z as i128
    }

    /// The squared length, exact in 128 bits.
    pub fn length_squared(&self) -> (r: i128)
        requires
            self.bounded(0x0fff_ffff_ffff_ffff),
        ensures
            r == self.dot_spec(*self),
            r >= 0,
    {
        proof {
            lemma_square_nonneg(self.x as int);
            lemma_square_nonneg(self.y as int);
            lemma_square_nonneg(self.z as int);
        }
        Self::dot(self, self)
    }

    /// The length, rounded down to an integer.
    pub fn length(&self) -> (r: i64)
        requires
            self.bounded(0x0fff_ffff_ffff_ffff),
        ensures
            is_isqrt(self.dot_spec(*self), r as int),
    {
        let ls = self.length_squared();
        let r = isqrt(ls as u128);
        proof {
            lemma_product_bound(self.x as int, self.x as int, 0x0fff_ffff_ffff_ffff);
            lemma_product_bound(self.y as int, self.y as int, 0x0fff_ffff_ffff_ffff);
            lemma_product_bound(self.z as int, self.z as int, 0x0fff_ffff_ffff_ffff);
            lemma_isqrt_small(ls as int, r as int);
        }
        r as i64
    }
}

/// The smallest squared length, exclusive, of a candidate that
/// `random_unit_vector` accepts: shorter candidates would lose too much to
/// rounding when scaled up to length one.
pub const MIN_CANDIDATE_LEN_SQ: i64 = 16777216;

/// `u` is the unit vector of a candidate `p` drawn inside the ball of radius
/// one and not too short: `p * ONE / |p|`, with the length rounded down.
pub open spec fn is_unit_draw(u: Vec3) -> bool {
    exists|p: Vec3, len: int|
        #![trigger p.dot_spec(p), is_isqrt(p.dot_spec(p), len)]
        p.bounded(ONE as int) && MIN_CANDIDATE_LEN_SQ < p.dot_spec(p) <= ONE * ONE && is_isqrt(
            p.dot_spec(p),
            len,
        ) && u.same(p.scaled(ONE as int, len))
}

/// How many candidates `random_unit_vector` draws before it gives up.
pub const MAX_DRAWS: u32 = 64;

/// Relies on rand::random_range over a half-open `i64` range: the value lies in
/// `[lo, hi)`. The call panics on an empty range, which `requires` leaves out.
#[verifier::external_body]
pub(crate) fn draw(lo: i64, hi: i64) -> (r: i64)
    requires
        lo < hi,
    ensures
        lo <= r < hi,
{
    rand::random_range(lo..hi)
}

impl Vec3 {
    /// The vector of the same direction with length one (`ONE`), each
    /// component rounded down. A zero vector has no direction and is refused.
    pub fn unit_vector(vec: &Self) -> (r: Vec3)
        requires
            vec.bounded(0x0fff_ffff_ffff_ffff),
            !vec.is_zero(),
        ensures
            exists|len: int|
                #![trigger is_isqrt(vec.dot_spec(*vec), len)]
                is_isqrt(vec.dot_spec(*vec), len) && len > 0 && r.same(
                    vec.scaled(ONE as int, len),
                ),
            r.bounded(ONE as int),
    {
        let len = vec.length();
        proof {
            let ls = vec.dot_spec(*vec);
            lemma_square_nonneg(vec.x as int);
            lemma_square_nonneg(vec.y as int);
            lemma_square_nonneg(vec.z as int);
            lemma_component_le_length(vec.x as int, ls, len as int);
            lemma_component_le_length(vec.y as int, ls, len as int);
            lemma_component_le_length(vec.z as int, ls, len as int);
            if len == 0 {
                assert(vec.x * vec.x == 0 && vec.y * vec.y == 0 && vec.z * vec.z == 0);
                assert(vec.x == 0 && vec.y == 0 && vec.z == 0) by (nonlinear_arith)
                    requires
                        vec.x * vec.x == 0 && vec.y * vec.y == 0 && vec.z * vec.z == 0,
                ;
            }
            lemma_unit_component(vec.x as int, len as int);
            lemma_unit_component(vec.y as int, len as int);
            lemma_unit_component(vec.z as int, len as int);
        }
        vec.mul_div(ONE, len)
    }

    /// Each component limited to `[min, max]`; the vector is changed in place
    /// and the new value returned.
    pub fn clamp(&mut self, min: i64, max: i64) -> (r: Self)
        requires
            min <= max,
        ensures
            r == *final(self),
            r.x == clamp_int(old(self).x as int, min as int, max as int),
            r.y == clamp_int(old(self).y as int, min as int, max as int),
            r.z == clamp_int(old(self).z as int, min as int, max as int),
    {
        self.x = clamp_i64(self.x, min, max);
        self.y = clamp_i64(self.y, min, max);
        self.z = clamp_i64(self.z, min, max);
        *self
    }

    /// The integer part of each component, saturated to a byte.
    pub fn rounded(&self) -> (r: (u8, u8, u8))
        ensures
            r.0 == byte_of(self.x as int),
            r.1 == byte_of(self.y as int),
            r.2 == byte_of(self.z as int),
    {
        (byte_from(self.x), byte_from(self.y), byte_from(self.z))
    }

    /// A vector with each component drawn uniformly from `[0, ONE)`.
    pub fn random() -> (r: Vec3)
        ensures
            0 <= r.x < ONE && 0 <= r.y < ONE && 0 <= r.z < ONE,
    {
        Vec3 { x: draw(0, ONE), y: draw(0, ONE), z: draw(0, ONE) }
    }

    /// A vector with each component drawn uniformly from `[min, max)`.
    pub fn random_ranged(min: i64, max: i64) -> (r: Vec3)
        requires
            min < max,
        ensures
            min <= r.x < max && min <= r.y < max && min <= r.z < max,
    {
        Vec3 { x: draw(min, max), y: draw(min, max), z: draw(min, max) }
    }

    /// A random direction of length one, found by rejection: candidates are
    /// drawn in the cube `[-ONE, ONE)^3` until one lies inside the unit ball and
    /// is longer than `1/16`. `None` when all `MAX_DRAWS` candidates were rejected.
    pub fn random_unit_vector() -> (r: Option<Vec3>)
        ensures
            r matches Some(u) ==> is_unit_draw(u) && u.bounded(ONE as int),
    {
        let mut tries: u32 = 0;
        while tries < MAX_DRAWS
            decreases MAX_DRAWS - tries,
        {
            let p = Self::random_ranged(-ONE, ONE);
            if let Some(u) = Self::accept_candidate(p) {
                return Some(u);
            }
            tries = tries + 1;
        }
        None
    }

    /// The rejection test of `random_unit_vector` on one candidate `p` drawn in
    /// the cube `[-ONE, ONE]^3`: `p` scaled to length one when it lies inside
    /// the unit ball and is longer than `1/16`, else `None`.
    pub fn accept_candidate(p: Vec3) -> (r: Option<Vec3>)
        requires
            p.bounded(ONE as int),
        ensures
            r is Some <==> (MIN_CANDIDATE_LEN_SQ < p.dot_spec(p) <= ONE * ONE),
            r matches Some(u) ==> exists|len: int|
                #![trigger is_isqrt(p.dot_spec(p), len)]
                is_isqrt(p.dot_spec(p), len) && u.same(p.scaled(ONE as int, len)),
            r matches Some(u) ==> is_unit_draw(u) && u.bounded(ONE as int),
    {
        let lensq = p.length_squared();
        if (MIN_CANDIDATE_LEN_SQ as i128) < lensq && lensq <= 0x1_0000_0000i128 {
            proof {
                if p.is_zero() {
                    assert(p.x * p.x + p.y * p.y + p.z * p.z == 0) by (nonlinear_arith)
                        requires
                            p.x == 0 && p.y == 0 && p.z == 0,
                    ;
                }
            }
            Some(Self::unit_vector(&p))
        } else {
            None
        }
    }

    /// `u` turned into the hemisphere of `normal`: kept when it points the same
    /// way, negated otherwise.
    pub fn orient(u: Vec3, normal: &Vec3) -> (r: Vec3)
        requires
            u.bounded(0x0fff_ffff_ffff_ffff),
            normal.bounded(0x0fff_ffff_ffff_ffff),
        ensures
            r == if u.dot_spec(*normal) > 0 {
                u
            } else {
                u.neg_spec()
            },
            r.dot_spec(*normal) >= 0,
    {
        if Self::dot(&u, normal) > 0 {
            u
        } else {
            proof {
                lemma_dot_neg(u, *normal);
            }
            u.neg()
        }
    }

    /// A random direction of length one in the hemisphere of `normal`: the
    /// drawn unit vector, negated when it points away from `normal`.
    pub fn random_on_hemisphere(normal: &Vec3) -> (r: Option<Vec3>)
        requires
            normal.bounded(0x0fff_ffff_ffff_ffff),
        ensures
            r matches Some(v) ==> v.dot_spec(*normal) >= 0 && (is_unit_draw(v) || is_unit_draw(
                v.neg_spec(),
            )),
    {
        match Self::random_unit_vector() {
            Some(on_unit_sphere) => {
                let v = Self::orient(on_unit_sphere, normal);
                proof {
                    assert(on_unit_sphere.neg_spec().neg_spec() == on_unit_sphere);
                }
                Some(v)
            },
            None => None,
        }
    }
}

pub open spec fn byte_of(c: int) -> int {
    clamp_int(c / (ONE as int), 0, 255)
}

fn byte_from(c: i64) -> (r: u8)
    ensures
        r == byte_of(c as int),
{
    if c < 0 {
        0
    } else if c / ONE > 255 {
        255
    } else {
        (c / ONE) as u8
    }
}

fn clamp_i64(a: i64, lo: i64, hi: i64) -> (r: i64)
    requires
        lo <= hi,
    ensures
        r == clamp_int(a as int, lo as int, hi as int),
{
    if a < lo {
        lo
    } else if a > hi {
        hi
    } else {
        a
    }
}

/// Negation distributes over the dot product.
pub proof fn lemma_dot_neg(a: Vec3, b: Vec3)
    requires
        a.bounded(i64::MAX as int),
    ensures
        a.neg_spec().dot_spec(b) == -a.dot_spec(b),
{
    assert((-a.x) * b.x == -(a.x * b.x)) by (nonlinear_arith);
    assert((-a.y) * b.y == -(a.y * b.y)) by (nonlinear_arith);
    assert((-a.z) * b.z == -(a.z * b.z)) by (nonlinear_arith);
}

proof fn lemma_component_le_length(c: int, ls: int, len: int)
    requires
        c * c <= ls,
        is_isqrt(ls, len),
    ensures
        abs(c) <= len,
{
    if abs(c) > len {
        assert(c * c >= (len + 1) * (len + 1)) by (nonlinear_arith)
            requires
                abs(c) > len,
                len >= 0,
        ;
    }
}

proof fn lemma_unit_component(c: int, len: int)
    requires
        abs(c) <= len,
        len > 0,
    ensures
        abs((c * ONE) / len) <= ONE,
{
    let q = (c * ONE) / len;
    vstd::arithmetic::div_mod::lemma_fundamental_div_mod(c * ONE, len);
    let r = (c * ONE) % len;
    assert(0 <= r < len);
    assert(-ONE <= q <= ONE) by (nonlinear_arith)
        requires
            c * ONE == len * q + r,
            0 <= r < len,
            abs(c) <= len,
            len > 0,
            ONE == 65536,
    ;
}

/// Floor square root by bisection.
pub fn isqrt(n: u128) -> (r: u128)
    ensures
        is_isqrt(n as int, r as int),
{
    let mut lo: u128 = 0;
    let mut hi: u128 = 0x1_0000_0000_0000_0000;
    proof {
        assert(n < hi * hi) by (nonlinear_arith)
            requires
                hi == 0x1_0000_0000_0000_0000u128,
                n <= u128::MAX,
        ;
    }
    while hi - lo > 1
        invariant
            lo < hi <= 0x1_0000_0000_0000_0000u128,
            lo * lo <= n,
            n < hi * hi,
        decreases hi - lo,
    {
        let mid = lo + (hi - lo) / 2;
        proof {
            assert(mid * mid < 0x1_0000_0000_0000_0000_0000_0000_0000_0000int) by (nonlinear_arith)
                requires
                    mid < 0x1_0000_0000_0000_0000u128,
            ;
        }
        if mid * mid <= n {
            lo = mid;
        } else {
            hi = mid;
        }
    }
    assert(hi == lo + 1);
    lo
}

/// Division rounding toward negative infinity.
pub fn floor_div(a: i128, d: i128) -> (q: i128)
    requires
        d > 0,
        a > i128::MIN + d,
    ensures
        q == a as int / d as int,
{
    if a >= 0 {
        a / d
    } else {
        let q = (-a + d - 1) / d;
        proof {
            let m: int = -a + d - 1;
            assert(q * d <= m < q * d + d) by (nonlinear_arith)
                requires
                    q == m / (d as int),
                    d > 0,
                    m >= 0,
            ;
            assert((-q) * d == -(q * d)) by (nonlinear_arith);
            lemma_fundamental_div_mod_converse(a as int, d as int, -q, a + q * d);
        }
        -q
    }
}

proof fn lemma_mul_fits(a: i64, b: i64)
    ensures
        abs(a * b) <= 0x4000_0000_0000_0000_0000_0000_0000_0000,
{
    lemma_product_bound(a as int, b as int, 0x8000_0000_0000_0000);
}

proof fn lemma_product_bound(a: int, b: int, m: int)
    requires
        abs(a) <= m,
        abs(b) <= m,
    ensures
        abs(a * b) <= m * m,
{
    assert(abs(a * b) <= m * m) by (nonlinear_arith)
        requires
            abs(a) <= m,
            abs(b) <= m,
    ;
}

proof fn lemma_square_nonneg(a: int)
    ensures
        a * a >= 0,
{
    assert(a * a >= 0) by (nonlinear_arith);
}

/// The square root of a value below `2^127` is below `2^64 / sqrt 2`, so it fits an `i64`.
proof fn lemma_isqrt_small(n: int, r: int)
    requires
        0 <= n < 0x4000_0000_0000_0000_0000_0000_0000_0000,
        is_isqrt(n, r),
    ensures
        r <= i64::MAX,
{
    if r > i64::MAX {
        assert(r * r > n) by (nonlinear_arith)
            requires
                r > 0x7fff_ffff_ffff_ffff,
                n < 0x4000_0000_0000_0000_0000_0000_0000_0000int,
                r * r <= n,
        ;
    }
}

} // verus!
