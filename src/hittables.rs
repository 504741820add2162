use crate::interval::Interval;
use crate::ray::{Ray, T_MAX};
use crate::vec3::{floor_div, is_isqrt, isqrt, Vec3, COORD_MAX, ONE};
use vstd::prelude::*;

verus! {

/// A bound on the components of a stored normal.
pub const NORMAL_MAX: i64 = 0x0800_2000_0000_0000;

/// A sphere: its center and its radius, a positive fixed-point number.
#[derive(Clone, Copy, Debug, PartialEq, Eq, Structural)]
pub struct Sphere {
    pub center: Vec3,
    pub r: i64,
}

/// What an intersection found: the point, the normal turned against the
/// ray, the ray parameter and whether the ray came from outside.
#[derive(Clone, Copy, Debug, PartialEq, Eq, Structural)]
pub struct HitRecord {
    pub p: Vec3,
    pub normal: Vec3,
    pub t: i64,
    pub front_face: bool,
}

/// The floor square root of a nonnegative integer.
pub open spec fn isqrt_spec(n: int) -> int {
    choose|r: int| is_isqrt(n, r)
}

/// `outward` turned so that it faces against `dir`, and whether it already did.
pub open spec fn faced(dir: Vec3, outward: Vec3) -> (Vec3, bool) {
    if dir.dot_spec(outward) < 0 {
        (outward, true)
    } else {
        (outward.neg_spec(), false)
    }
}

impl Sphere {
    pub open spec fn wf(self) -> bool {
        self.center.bounded(COORD_MAX as int) && 0 < self.r <= COORD_MAX
    }

    /// From the ray's origin to the center.
    pub open spec fn oc(self, ray: Ray) -> Vec3 {
        Vec3 {
            x: (self.center.x - ray.orig.x) as i64,
            y: (self.center.y - ray.orig.y) as i64,
            z: (self.center.z - ray.orig.z) as i64,
        }
    }

    pub open spec fn coef_a(ray: Ray) -> int {
        ray.dir.dot_spec(ray.dir)
    }

    pub open spec fn coef_h(self, ray: Ray) -> int {
        ray.dir.dot_spec(self.oc(ray))
    }

    pub open spec fn coef_c(self, ray: Ray) -> int {
        self.oc(ray).dot_spec(self.oc(ray)) - self.r * self.r
    }

    /// The discriminant of the half-angle form of the quadratic.
    pub open spec fn disc(self, ray: Ray) -> int {
        self.coef_h(ray) * self.coef_h(ray) - Self::coef_a(ray) * self.coef_c(ray)
    }

    /// The nearer root, as a fixed-point parameter rounded down.
    pub open spec fn root_near(self, ray: Ray) -> int {
        ((self.coef_h(ray) - isqrt_spec(self.disc(ray))) * ONE) / Self::coef_a(ray)
    }

    /// The farther root, as a fixed-point parameter rounded down.
    pub open spec fn root_far(self, ray: Ray) -> int {
        ((self.coef_h(ray) + isqrt_spec(self.disc(ray))) * ONE) / Self::coef_a(ray)
    }

    /// The parameter of the first intersection strictly inside `(tmin, tmax)`.
    pub open spec fn hit_t(self, ray: Ray, tmin: int, tmax: int) -> Option<int> {
        if Self::coef_a(ray) == 0 || self.disc(ray) < 0 {
            None
        } else if tmin < self.root_near(ray) < tmax {
            Some(self.root_near(ray))
        } else if tmin < self.root_far(ray) < tmax {
            Some(self.root_far(ray))
        } else {
            None
        }
    }

    /// The unit outward normal at `p`: `(p - center) / r`, rounded down.
    pub open spec fn outward_at(self, p: Vec3) -> Vec3 {
        Vec3 {
            x: (((p.x - self.center.x) * ONE) / (self.r as int)) as i64,
            y: (((p.y - self.center.y) * ONE) / (self.r as int)) as i64,
            z: (((p.z - self.center.z) * ONE) / (self.r as int)) as i64,
        }
    }

    /// The record of the intersection at parameter `t`.
    pub open spec fn record_at(self, ray: Ray, t: int) -> HitRecord {
        let p = ray.at_spec(t);
        let f = faced(ray.dir, self.outward_at(p));
        HitRecord { p, normal: f.0, t: t as i64, front_face: f.1 }
    }

    /// The intersection of `ray` with the sphere strictly inside `(tmin, tmax)`.
    pub open spec fn hit_spec(self, ray: Ray, tmin: int, tmax: int) -> Option<HitRecord> {
        match self.hit_t(ray, tmin, tmax) {
            Some(t) => Some(self.record_at(ray, t)),
            None => None,
        }
    }

    pub fn new(center: Vec3, r: i64) -> (s: Sphere)
        ensures
            s.center == center,
            s.r == r,
    {
        Sphere { center, r }
    }

    /// Intersects `r` with the sphere within the open interval `ray_t`. On a
    /// hit the record is overwritten and `true` returned; otherwise it is left
    /// as it was.
    pub fn hit(&self, r: &Ray, ray_t: Interval, rec: &mut HitRecord) -> (hit: bool)
        requires
            self.wf(),
            r.wf(),
            ray_t.in_range(),
        ensures
            match self.hit_spec(*r, ray_t.min as int, ray_t.max as int) {
                Some(h) => hit && *final(rec) == h,
                None => !hit && *final(rec) == *old(rec),
            },
            hit ==> final(rec).normal.dot_spec(r.dir) <= 0,
            hit ==> final(rec).normal.bounded(NORMAL_MAX as int),
    {
        let d = r.direction();
        let oc = self.center.sub(r.origin());
        assert(oc == self.oc(*r));
        proof {
            lemma_dot_bound(d, d, 0x1000_0000);
            lemma_dot_bound(d, oc, 0x2000_0000);
            lemma_dot_bound(oc, oc, 0x2000_0000);
            lemma_square_bound(self.r as int);
        }
        let a = d.length_squared();
        let h = Vec3::dot(&d, &oc);
        let c = oc.length_squared() - (self.r as i128) * (self.r as i128);
        proof {
            lemma_mul_bound(h as int, h as int, 0x1000_0000_0000_0000, 0x1000_0000_0000_0000);
            lemma_mul_bound(a as int, c as int, 0x1000_0000_0000_0000, 0x1000_0000_0000_0000);
        }
        let discriminant = h * h - a * c;
        if a == 0 || discriminant < 0 {
            return false;
        }
        let sq = isqrt(discriminant as u128);
        proof {
            lemma_sqrt_bound(discriminant as int, sq as int);
            lemma_isqrt_unique(discriminant as int, sq as int);
        }
        let sqrtd = sq as i128;
        let mut root = floor_div((h - sqrtd) * 65536i128, a);
        if root <= ray_t.min as i128 || ray_t.max as i128 <= root {
            root = floor_div((h + sqrtd) * 65536i128, a);
            if root <= ray_t.min as i128 || ray_t.max as i128 <= root {
                return false;
            }
        }
        let t = root as i64;
        let p = r.at(t);
        let rel = p.sub(self.center);
        proof {
            lemma_normal_bound(rel.x as int, self.r as int);
            lemma_normal_bound(rel.y as int, self.r as int);
            lemma_normal_bound(rel.z as int, self.r as int);
        }
        let outward = rel.mul_div(ONE, self.r);
        rec.t = t;
        rec.p = p;
        rec.set_face_normal(r, &outward);
        true
    }
}

impl HitRecord {
    pub fn new() -> (r: HitRecord)
        ensures
            r.p.is_zero() && r.normal.is_zero() && r.t == 0 && !r.front_face,
    {
        HitRecord { p: Vec3::zero(), normal: Vec3::zero(), t: 0, front_face: false }
    }

    /// Stores `outward_normal` turned against the ray, and whether the ray
    /// came from outside.
    pub fn set_face_normal(&mut self, r: &Ray, outward_normal: &Vec3)
        requires
            r.dir.bounded(0x0fff_ffff_ffff_ffff),
            outward_normal.bounded(0x0fff_ffff_ffff_ffff),
        ensures
            final(self).p == old(self).p,
            final(self).t == old(self).t,
            (final(self).normal, final(self).front_face) == faced(r.dir, *outward_normal),
            final(self).normal.dot_spec(r.dir) <= 0,
    {
        self.front_face = Vec3::dot(&r.direction(), outward_normal) < 0;
        self.normal = if self.front_face {
            *outward_normal
        } else {
            outward_normal.neg()
        };
        proof {
            lemma_dot_comm(r.dir, *outward_normal);
            crate::vec3::lemma_dot_neg(*outward_normal, r.dir);
        }
    }
}

/// The scene: an ordered list of spheres.
#[derive(Clone, Debug)]
pub struct HittableList {
    pub objects: Vec<Sphere>,
}

/// The better of a best hit so far and a new candidate: the candidate only
/// when it is strictly nearer, so the earliest of equal hits is kept.
pub open spec fn closer(best: Option<HitRecord>, cand: Option<HitRecord>) -> Option<HitRecord> {
    match cand {
        Some(c) => match best {
            Some(b) => if c.t < b.t {
                cand
            } else {
                best
            },
            None => cand,
        },
        None => best,
    }
}

/// The nearest of the hits that each sphere of `objs` gives on its own
/// within `(tmin, tmax)`; among equally near hits, the earliest sphere's.
pub open spec fn closest_hit(objs: Seq<Sphere>, ray: Ray, tmin: int, tmax: int) -> Option<HitRecord>
    decreases objs.len(),
{
    if objs.len() == 0 {
        None
    } else {
        closer(closest_hit(objs.drop_last(), ray, tmin, tmax), objs.last().hit_spec(ray, tmin, tmax))
    }
}

impl HittableList {
    pub open spec fn wf(self) -> bool {
        forall|i: int| 0 <= i < self.objects@.len() ==> #[trigger] self.objects@[i].wf()
    }

    pub fn new() -> (l: HittableList)
        ensures
            l.objects@.len() == 0,
    {
        HittableList { objects: Vec::new() }
    }

    pub fn add(&mut self, object: Sphere)
        ensures
            final(self).objects@ == old(self).objects@.push(object),
    {
        self.objects.push(object);
    }

    /// The nearest intersection of `r` with any sphere of the scene within the
    /// open interval `ray_t`. On a hit the record is overwritten with it and
    /// `true` returned; otherwise the record is left as it was.
    pub fn hit(&self, r: &Ray, ray_t: Interval, rec: &mut HitRecord) -> (hit: bool)
        requires
            self.wf(),
            r.wf(),
            ray_t.in_range(),
        ensures
            match closest_hit(self.objects@, *r, ray_t.min as int, ray_t.max as int) {
                Some(h) => hit && *final(rec) == h,
                None => !hit && *final(rec) == *old(rec),
            },
            hit ==> final(rec).normal.dot_spec(r.dir) <= 0,
            hit ==> final(rec).normal.bounded(NORMAL_MAX as int),
    {
        let ghost objs = self.objects@;
        let ghost tmin = ray_t.min as int;
        let ghost tmax = ray_t.max as int;
        let mut temp_rec = HitRecord::new();
        let mut hit_anything = false;
        let mut closest_so_far = ray_t.max;
        let mut i: usize = 0;
        proof {
            assert(objs.take(0) =~= Seq::<Sphere>::empty());
        }
        while i < self.objects.len()
            invariant
                i <= objs.len(),
                objs == self.objects@,
                self.wf(),
                r.wf(),
                ray_t.in_range(),
                tmin == ray_t.min,
                tmax == ray_t.max,
                hit_anything == closest_hit(objs.take(i as int), *r, tmin, tmax).is_some(),
                hit_anything ==> rec.normal.dot_spec(r.dir) <= 0,
                hit_anything ==> rec.normal.bounded(NORMAL_MAX as int),
                match closest_hit(objs.take(i as int), *r, tmin, tmax) {
                    Some(h) => closest_so_far == h.t && *rec == h && tmin < h.t < tmax,
                    None => closest_so_far == tmax && *rec == *old(rec),
                },
            decreases objs.len() - i,
        {
            let obj = &self.objects[i];
            proof {
                assert(objs.take(i + 1).drop_last() =~= objs.take(i as int));
                assert(objs.take(i + 1).last() == objs[i as int]);
                lemma_narrow(objs[i as int], *r, tmin, tmax, closest_so_far as int);
                lemma_hit_in_range(objs[i as int], *r, tmin, tmax);
            }
            if obj.hit(r, Interval::new_from_values(closest_so_far, ray_t.min), &mut temp_rec) {
                hit_anything = true;
                closest_so_far = temp_rec.t;
                *rec = temp_rec;
            }
            i = i + 1;
        }
        proof {
            assert(objs.take(objs.len() as int) =~= objs);
        }
        hit_anything
    }
}

/// The scene's hit is the nearest of the hits its spheres give one by one:
/// there is none exactly when no sphere is hit, and otherwise it is the hit of
/// some sphere, with a parameter no larger than that of any sphere's hit.
pub proof fn lemma_closest_is_minimum(objs: Seq<Sphere>, ray: Ray, tmin: int, tmax: int)
    ensures
        closest_hit(objs, ray, tmin, tmax) is None <==> forall|i: int|
            0 <= i < objs.len() ==> #[trigger] objs[i].hit_spec(ray, tmin, tmax) is None,
        closest_hit(objs, ray, tmin, tmax) matches Some(h) ==> exists|i: int|
            0 <= i < objs.len() && #[trigger] objs[i].hit_spec(ray, tmin, tmax) == Some(h),
        closest_hit(objs, ray, tmin, tmax) matches Some(h) ==> forall|i: int|
            0 <= i < objs.len() && #[trigger] objs[i].hit_spec(ray, tmin, tmax) is Some ==> h.t
                <= objs[i].hit_spec(ray, tmin, tmax).unwrap().t,
    decreases objs.len(),
{
    if objs.len() > 0 {
        let init = objs.drop_last();
        lemma_closest_is_minimum(init, ray, tmin, tmax);
        assert forall|i: int| 0 <= i < init.len() implies #[trigger] objs[i] == init[i] by {}
        let last = objs.len() - 1;
        assert(objs[last] == objs.last());
        if closest_hit(objs, ray, tmin, tmax) is None {
            assert forall|i: int| 0 <= i < objs.len() implies #[trigger] objs[i].hit_spec(
                ray,
                tmin,
                tmax,
            ) is None by {
                if i < last {
                    assert(init[i] == objs[i]);
                }
            }
        }
        match closest_hit(objs, ray, tmin, tmax) {
            Some(h) => {
                if closest_hit(init, ray, tmin, tmax) == Some(h) {
                    let j = choose|j: int|
                        0 <= j < init.len() && #[trigger] init[j].hit_spec(ray, tmin, tmax) == Some(
                            h,
                        );
                    assert(objs[j] == init[j]);
                } else {
                    assert(objs[last].hit_spec(ray, tmin, tmax) == Some(h));
                }
                assert forall|i: int|
                    0 <= i < objs.len() && #[trigger] objs[i].hit_spec(ray, tmin, tmax) is Some implies h.t
                    <= objs[i].hit_spec(ray, tmin, tmax).unwrap().t by {
                    if i < last {
                        assert(init[i] == objs[i]);
                    }
                }
            },
            None => {},
        }
    }
}

/// Every hit the scene reports has its normal turned against the ray:
/// `dot(normal, direction) <= 0`.
pub proof fn lemma_scene_normal_faces_ray(world: HittableList, ray: Ray, tmin: int, tmax: int)
    requires
        world.wf(),
        ray.wf(),
        -T_MAX <= tmin,
        tmax <= T_MAX,
    ensures
        closest_hit(world.objects@, ray, tmin, tmax) matches Some(h) ==> h.normal.dot_spec(ray.dir)
            <= 0,
{
    lemma_closest_is_minimum(world.objects@, ray, tmin, tmax);
    if let Some(h) = closest_hit(world.objects@, ray, tmin, tmax) {
        let i = choose|i: int|
            0 <= i < world.objects@.len() && #[trigger] world.objects@[i].hit_spec(ray, tmin, tmax)
                == Some(h);
        assert(world.objects@[i].wf());
        lemma_sphere_normal_faces_ray(world.objects@[i], ray, tmin, tmax);
    }
}

/// Every hit on a sphere has its normal turned against the ray:
/// `dot(normal, direction) <= 0`.
pub proof fn lemma_sphere_normal_faces_ray(s: Sphere, ray: Ray, tmin: int, tmax: int)
    requires
        s.wf(),
        ray.wf(),
        -T_MAX <= tmin,
        tmax <= T_MAX,
    ensures
        s.hit_spec(ray, tmin, tmax) matches Some(h) ==> h.normal.dot_spec(ray.dir) <= 0,
{
    if let Some(t) = s.hit_t(ray, tmin, tmax) {
        crate::ray::lemma_step_bound(ray.dir.x as int, t);
        crate::ray::lemma_step_bound(ray.dir.y as int, t);
        crate::ray::lemma_step_bound(ray.dir.z as int, t);
        let p = ray.at_spec(t);
        lemma_normal_bound(p.x - s.center.x, s.r as int);
        lemma_normal_bound(p.y - s.center.y, s.r as int);
        lemma_normal_bound(p.z - s.center.z, s.r as int);
        let outward = s.outward_at(p);
        lemma_dot_comm(ray.dir, outward);
        crate::vec3::lemma_dot_neg(outward, ray.dir);
    }
}

/// Where the ray meets the sphere before the parameter is rounded to a
/// fixed-point value: with `s` the floor square root of the discriminant and
/// `n = h - s` or `n = h + s`, the point `origin + (n / a) * direction` lies
/// at distance at most `r` from the center and at least
/// `sqrt(r^2 - 2 s / a)`. Scaled by `a` to stay in integers:
/// `a^2 r^2 - 2 a s <= |n d - a oc|^2 <= a^2 r^2`.
pub proof fn lemma_root_on_sphere(s: Sphere, ray: Ray, n: int)
    requires
        Sphere::coef_a(ray) > 0,
        s.disc(ray) >= 0,
        n == s.coef_h(ray) - isqrt_spec(s.disc(ray)) || n == s.coef_h(ray) + isqrt_spec(
            s.disc(ray),
        ),
    ensures
        ({
            let a = Sphere::coef_a(ray);
            let sq = isqrt_spec(s.disc(ray));
            let oc = s.oc(ray);
            let d = ray.dir;
            let ex = n * d.x - a * oc.x;
            let ey = n * d.y - a * oc.y;
            let ez = n * d.z - a * oc.z;
            let r2 = s.r * s.r;
            &&& a * a * r2 - 2 * a * sq <= ex * ex + ey * ey + ez * ez
            &&& ex * ex + ey * ey + ez * ez <= a * a * r2
        }),
{
    let a = Sphere::coef_a(ray);
    let h = s.coef_h(ray);
    let big_d = s.disc(ray);
    lemma_isqrt_exists(big_d);
    let sq = isqrt_spec(big_d);
    let oc = s.oc(ray);
    let d = ray.dir;
    let (dx, dy, dz) = (d.x as int, d.y as int, d.z as int);
    let (ox, oy, oz) = (oc.x as int, oc.y as int, oc.z as int);
    let r2 = s.r * s.r;
    let cc = ox * ox + oy * oy + oz * oz - r2;
    assert(cc == s.coef_c(ray));
    let ex = n * dx - a * ox;
    let ey = n * dy - a * oy;
    let ez = n * dz - a * oz;
    lemma_square_expand(n, a, dx, ox);
    lemma_square_expand(n, a, dy, oy);
    lemma_square_expand(n, a, dz, oz);
    lemma_factor3(n * n, dx * dx, dy * dy, dz * dz);
    lemma_factor3(2 * n * a, dx * ox, dy * oy, dz * oz);
    lemma_factor3(a * a, ox * ox, oy * oy, oz * oz);
    assert(ex * ex + ey * ey + ez * ez == n * n * a - 2 * n * a * h + a * a * (cc + r2));
    assert(n * n * a - 2 * n * a * h + a * a * (cc + r2) == a * (n * n - 2 * n * h + a * cc) + a
        * a * r2) by (nonlinear_arith);
    assert(n * n - 2 * n * h == sq * sq - h * h) by (nonlinear_arith)
        requires
            n == h - sq || n == h + sq,
    ;
    assert(big_d == h * h - a * cc);
    assert(0 <= big_d - sq * sq <= 2 * sq) by (nonlinear_arith)
        requires
            sq >= 0,
            sq * sq <= big_d,
            big_d < (sq + 1) * (sq + 1),
    ;
    assert(a * (sq * sq - big_d) <= 0 && a * (sq * sq - big_d) >= -(2 * a * sq)) by (
    nonlinear_arith)
        requires
            a > 0,
            0 <= big_d - sq * sq <= 2 * sq,
    ;
    assert(a * (n * n - 2 * n * h + a * cc) == a * (sq * sq - big_d)) by (nonlinear_arith)
        requires
            n * n - 2 * n * h == sq * sq - h * h,
            big_d == h * h - a * cc,
    ;
    assert(a * a * r2 - 2 * a * sq <= ex * ex + ey * ey + ez * ez <= a * a * r2);
}

proof fn lemma_square_expand(n: int, a: int, d: int, o: int)
    ensures
        (n * d - a * o) * (n * d - a * o) == n * n * (d * d) - 2 * n * a * (d * o) + a * a * (o
            * o),
{
    lemma_binomial(n * d, a * o);
    lemma_swap_product(n, d, n, d);
    lemma_swap_product(n, d, a, o);
    lemma_swap_product(a, o, a, o);
    assert(2 * (n * d) * (a * o) == 2 * ((n * d) * (a * o))) by (nonlinear_arith);
    assert(2 * n * a * (d * o) == 2 * ((n * a) * (d * o))) by (nonlinear_arith);
}

proof fn lemma_binomial(u: int, v: int)
    ensures
        (u - v) * (u - v) == u * u - 2 * u * v + v * v,
{
    assert((u - v) * (u - v) == u * u - 2 * u * v + v * v) by (nonlinear_arith);
}

proof fn lemma_swap_product(p: int, q: int, x: int, y: int)
    ensures
        (p * q) * (x * y) == (p * x) * (q * y),
{
    assert((p * q) * (x * y) == (p * x) * (q * y)) by (nonlinear_arith);
}

proof fn lemma_factor3(k: int, x: int, y: int, z: int)
    ensures
        k * x + k * y + k * z == k * (x + y + z),
{
    assert(k * x + k * y + k * z == k * (x + y + z)) by (nonlinear_arith);
}

/// The nearer root never exceeds the farther one.
proof fn lemma_roots_ordered(s: Sphere, ray: Ray)
    requires
        Sphere::coef_a(ray) > 0,
        s.disc(ray) >= 0,
    ensures
        s.root_near(ray) <= s.root_far(ray),
{
    lemma_isqrt_exists(s.disc(ray));
    let sq = isqrt_spec(s.disc(ray));
    assert((s.coef_h(ray) - sq) * ONE <= (s.coef_h(ray) + sq) * ONE) by (nonlinear_arith)
        requires
            sq >= 0,
    ;
    vstd::arithmetic::div_mod::lemma_div_is_ordered(
        (s.coef_h(ray) - sq) * ONE,
        (s.coef_h(ray) + sq) * ONE,
        Sphere::coef_a(ray),
    );
}

/// A hit lies strictly inside the interval it was looked for in.
proof fn lemma_hit_in_range(s: Sphere, ray: Ray, tmin: int, tmax: int)
    ensures
        s.hit_t(ray, tmin, tmax) matches Some(t) ==> tmin < t < tmax,
{
}

/// Shrinking the upper end of the interval to `c` keeps exactly the hits
/// nearer than `c`.
proof fn lemma_narrow(s: Sphere, ray: Ray, tmin: int, tmax: int, c: int)
    requires
        c <= tmax,
    ensures
        s.hit_t(ray, tmin, c) == (match s.hit_t(ray, tmin, tmax) {
            Some(t) => if t < c {
                Some(t)
            } else {
                None::<int>
            },
            None => None,
        }),
        s.hit_spec(ray, tmin, c) == (match s.hit_spec(ray, tmin, tmax) {
            Some(h) => if s.hit_t(ray, tmin, tmax).unwrap() < c {
                Some(h)
            } else {
                None::<HitRecord>
            },
            None => None,
        }),
{
    if Sphere::coef_a(ray) != 0 && s.disc(ray) >= 0 {
        if Sphere::coef_a(ray) < 0 {
            lemma_dot_bound_nonneg(ray.dir);
        }
        lemma_roots_ordered(s, ray);
    }
}

proof fn lemma_dot_bound_nonneg(v: Vec3)
    ensures
        v.dot_spec(v) >= 0,
{
    assert(v.x * v.x >= 0 && v.y * v.y >= 0 && v.z * v.z >= 0) by (nonlinear_arith);
}

/// Every nonnegative integer has a floor square root.
pub proof fn lemma_isqrt_exists(n: int)
    requires
        n >= 0,
    ensures
        is_isqrt(n, isqrt_spec(n)),
    decreases n,
{
    if n == 0 {
        assert(is_isqrt(0, 0));
    } else {
        lemma_isqrt_exists(n - 1);
        let r = isqrt_spec(n - 1);
        if n < (r + 1) * (r + 1) {
            assert(is_isqrt(n, r));
        } else {
            assert(n < (r + 2) * (r + 2)) by (nonlinear_arith)
                requires
                    n == (r + 1) * (r + 1),
                    r >= 0,
            ;
            assert(is_isqrt(n, r + 1));
        }
    }
}

/// Every nonnegative integer has exactly one floor square root.
pub proof fn lemma_isqrt_unique(n: int, r: int)
    requires
        is_isqrt(n, r),
    ensures
        isqrt_spec(n) == r,
{
    let s = isqrt_spec(n);
    assert(is_isqrt(n, s));
    if s < r {
        assert((s + 1) * (s + 1) <= r * r) by (nonlinear_arith)
            requires
                0 <= s < r,
        ;
    } else if r < s {
        assert((r + 1) * (r + 1) <= s * s) by (nonlinear_arith)
            requires
                0 <= r < s,
        ;
    }
}

pub proof fn lemma_dot_comm(a: Vec3, b: Vec3)
    ensures
        a.dot_spec(b) == b.dot_spec(a),
{
    assert(a.x * b.x == b.x * a.x) by (nonlinear_arith);
    assert(a.y * b.y == b.y * a.y) by (nonlinear_arith);
    assert(a.z * b.z == b.z * a.z) by (nonlinear_arith);
}

proof fn lemma_mul_bound(a: int, b: int, ma: int, mb: int)
    requires
        -ma <= a <= ma,
        -mb <= b <= mb,
    ensures
        -(ma * mb) <= a * b <= ma * mb,
{
    assert(-(ma * mb) <= a * b <= ma * mb) by (nonlinear_arith)
        requires
            -ma <= a <= ma,
            -mb <= b <= mb,
    ;
}

proof fn lemma_square_bound(r: int)
    requires
        0 < r <= 0x1000_0000,
    ensures
        0 < r * r <= 0x0100_0000_0000_0000,
{
    lemma_mul_bound(r, r, 0x1000_0000, 0x1000_0000);
    assert(r * r > 0) by (nonlinear_arith)
        requires
            r > 0,
    ;
}

/// A dot product of vectors bounded by `m` is bounded by `3 m^2`.
proof fn lemma_dot_bound(a: Vec3, b: Vec3, m: int)
    requires
        a.bounded(m),
        b.bounded(m),
    ensures
        -3 * (m * m) <= a.dot_spec(b) <= 3 * (m * m),
        a == b ==> a.dot_spec(b) >= 0,
{
    lemma_mul_bound(a.x as int, b.x as int, m, m);
    lemma_mul_bound(a.y as int, b.y as int, m, m);
    lemma_mul_bound(a.z as int, b.z as int, m, m);
    if a == b {
        assert(a.x * a.x >= 0 && a.y * a.y >= 0 && a.z * a.z >= 0) by (nonlinear_arith);
    }
}

proof fn lemma_sqrt_bound(n: int, r: int)
    requires
        0 <= n < 0x0400_0000_0000_0000_0000_0000_0000_0000,
        is_isqrt(n, r),
    ensures
        r < 0x2000_0000_0000_0000,
{
    if r >= 0x2000_0000_0000_0000 {
        assert(r * r >= 0x0400_0000_0000_0000_0000_0000_0000_0000) by (nonlinear_arith)
            requires
                r >= 0x2000_0000_0000_0000,
        ;
    }
}

/// `(x * ONE) / r` for `|x| <= 2^43 + 2^29` and `r >= 1` stays below `2^60`.
proof fn lemma_normal_bound(x: int, r: int)
    requires
        -0x0800_2000_0000 <= x <= 0x0800_2000_0000,
        1 <= r,
    ensures
        -0x0800_2000_0000_0000 <= (x * ONE) / r <= 0x0800_2000_0000_0000,
{
    let y = x * ONE;
    vstd::arithmetic::div_mod::lemma_fundamental_div_mod(y, r);
    let q = y / r;
    let m = y % r;
    assert(-0x0800_2000_0000_0000 <= q <= 0x0800_2000_0000_0000) by (nonlinear_arith)
        requires
            y == r * q + m,
            0 <= m < r,
            1 <= r,
            -0x0800_2000_0000_0000 <= y <= 0x0800_2000_0000_0000,
    ;
}

} // verus!
