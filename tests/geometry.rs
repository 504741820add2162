use raytrace::hittables::{HitRecord, HittableList, Sphere};
use raytrace::interval::Interval;
use raytrace::ray::{Ray, T_MAX};
use raytrace::vec3::{floor_div, isqrt, Vec3, ONE};

fn v(x: i64, y: i64, z: i64) -> Vec3 {
    Vec3::from_values(x, y, z)
}

fn dot(a: &Vec3, b: &Vec3) -> i128 {
    Vec3::dot(a, b)
}

#[test]
fn zero_and_accessors() {
    let z = Vec3::zero();
    assert_eq!((z.x(), z.y(), z.z()), (0, 0, 0));
    let p = v(1, -2, 3);
    assert_eq!((p.x(), p.y(), p.z()), (1, -2, 3));
}

#[test]
fn add_sub_neg() {
    let a = v(1, 2, 3);
    let b = v(10, -20, 30);
    assert_eq!(a.add(b), v(11, -18, 33));
    assert_eq!(a.sub(b), v(-9, 22, -27));
    assert_eq!(b.neg(), v(-10, 20, -30));
}

#[test]
fn dot_and_length() {
    let a = v(3, 4, 12);
    assert_eq!(dot(&a, &v(1, 1, 1)), 19);
    assert_eq!(a.length_squared(), 169);
    assert_eq!(a.length(), 13);
    assert_eq!(v(1, 1, 1).length(), 1);
    assert_eq!(v(2, 0, 0).length(), 2);
}

#[test]
fn isqrt_edges() {
    assert_eq!(isqrt(0), 0);
    assert_eq!(isqrt(1), 1);
    assert_eq!(isqrt(3), 1);
    assert_eq!(isqrt(4), 2);
    assert_eq!(isqrt(99), 9);
    let big: u128 = (u64::MAX as u128) * (u64::MAX as u128);
    assert_eq!(isqrt(big), u64::MAX as u128);
    assert_eq!(isqrt(big - 1), u64::MAX as u128 - 1);
    assert_eq!(isqrt(u128::MAX), u64::MAX as u128);
}

#[test]
fn floor_div_rounds_down() {
    assert_eq!(floor_div(7, 2), 3);
    assert_eq!(floor_div(-7, 2), -4);
    assert_eq!(floor_div(-8, 2), -4);
    assert_eq!(floor_div(0, 5), 0);
}

#[test]
fn mul_div_scales() {
    assert_eq!(v(10, -10, 3).mul_div(1, 4), v(2, -3, 0));
    assert_eq!(v(ONE, 2 * ONE, -ONE).mul_div(3, ONE), v(3, 6, -3));
}

#[test]
fn unit_vector_exact() {
    assert_eq!(Vec3::unit_vector(&v(0, 0, -5)), v(0, 0, -ONE));
    assert_eq!(Vec3::unit_vector(&v(3, 4, 0)), v(39321, 52428, 0));
    assert_eq!(Vec3::unit_vector(&v(-3, 0, 4)), v(-39322, 0, 52428));
}

#[test]
fn clamp_changes_in_place() {
    let mut a = v(-5, 50, 500);
    let r = a.clamp(0, 100);
    assert_eq!(r, v(0, 50, 100));
    assert_eq!(a, v(0, 50, 100));
}

#[test]
fn rounded_takes_integer_part_and_saturates() {
    assert_eq!(v(0, 0, 0).rounded(), (0, 0, 0));
    assert_eq!(v(ONE * 3 + 100, -ONE, ONE * 300).rounded(), (3, 0, 255));
    assert_eq!(v(ONE - 1, ONE * 255, ONE * 256).rounded(), (0, 255, 255));
}

#[test]
fn random_draws_stay_in_range() {
    for _ in 0..200 {
        let r = Vec3::random();
        assert!(0 <= r.x() && r.x() < ONE && 0 <= r.y() && r.y() < ONE && 0 <= r.z() && r.z() < ONE);
        let q = Vec3::random_ranged(-7, 3);
        assert!(-7 <= q.x() && q.x() < 3 && -7 <= q.y() && q.y() < 3 && -7 <= q.z() && q.z() < 3);
    }
}

#[test]
fn random_unit_vector_has_unit_length() {
    for _ in 0..200 {
        let u = Vec3::random_unit_vector().expect("a candidate is accepted");
        let len = u.length();
        assert!((len - ONE).abs() <= 24, "length {}", len);
    }
}

#[test]
fn random_on_hemisphere_faces_normal() {
    let n = v(0, ONE, 0);
    for _ in 0..200 {
        let u = Vec3::random_on_hemisphere(&n).expect("a candidate is accepted");
        assert!(dot(&u, &n) >= 0);
    }
}

#[test]
fn accept_candidate_cases() {
    assert_eq!(Vec3::accept_candidate(v(0, 0, 0)), None);
    assert_eq!(Vec3::accept_candidate(v(4096, 0, 0)), None);
    assert_eq!(Vec3::accept_candidate(v(4097, 0, 0)), Some(v(ONE, 0, 0)));
    assert_eq!(Vec3::accept_candidate(v(0, -ONE, 0)), Some(v(0, -ONE, 0)));
    assert_eq!(Vec3::accept_candidate(v(ONE, ONE, 0)), None);
    assert_eq!(Vec3::accept_candidate(v(3 * 8192, 4 * 8192, 0)), Some(v(39321, 52428, 0)));
}

#[test]
fn orient_cases() {
    let n = v(0, ONE, 0);
    assert_eq!(Vec3::orient(v(1, 2, 3), &n), v(1, 2, 3));
    assert_eq!(Vec3::orient(v(1, -2, 3), &n), v(-1, 2, -3));
    assert_eq!(Vec3::orient(v(5, 0, 3), &n), v(-5, 0, -3));
}

#[test]
fn ray_accessors_and_at() {
    let r = Ray::new(v(1, 2, 3), v(ONE, -ONE, 2 * ONE));
    assert_eq!(r.origin(), v(1, 2, 3));
    assert_eq!(r.direction(), v(ONE, -ONE, 2 * ONE));
    assert_eq!(r.at(ONE / 2), v(1 + ONE / 2, 2 - ONE / 2, 3 + ONE));
    assert_eq!(r.at(-ONE), v(1 - ONE, 2 + ONE, 3 - 2 * ONE));
    assert_eq!(r.at(0), v(1, 2, 3));
}

#[test]
fn interval_tests() {
    let i = Interval::new_from_values(10, 2);
    assert_eq!((i.max, i.min), (10, 2));
    assert_eq!(i.size(), 8);
    assert!(i.contains(2) && i.contains(10) && !i.contains(11));
    assert!(!i.surrounds(2) && i.surrounds(3) && !i.surrounds(10));
    let u = Interval::universe();
    assert!(u.contains(0) && u.contains(T_MAX + 1) && u.contains(i64::MIN) && u.contains(i64::MAX));
    let e = Interval::empty();
    assert!(!e.contains(0) && !e.surrounds(0) && !e.contains(i64::MIN) && !e.contains(i64::MAX));
    assert!(e.size() < 0);
    let t = Interval::ray_range();
    assert!(t.contains(T_MAX) && t.contains(-T_MAX) && !t.contains(T_MAX + 1));
}

fn unit_sphere_ahead() -> Sphere {
    Sphere::new(v(0, 0, -ONE), ONE / 2)
}

#[test]
fn sphere_hit_from_outside() {
    let s = unit_sphere_ahead();
    let r = Ray::new(Vec3::zero(), v(0, 0, -ONE));
    let mut rec = HitRecord::new();
    assert!(s.hit(&r, Interval::new_from_values(T_MAX, 0), &mut rec));
    assert_eq!(rec.t, ONE / 2);
    assert_eq!(rec.p, v(0, 0, -ONE / 2));
    assert_eq!(rec.normal, v(0, 0, ONE));
    assert!(rec.front_face);
}

#[test]
fn sphere_hit_from_inside_turns_normal() {
    let s = unit_sphere_ahead();
    let r = Ray::new(v(0, 0, -ONE), v(0, 0, -ONE));
    let mut rec = HitRecord::new();
    assert!(s.hit(&r, Interval::new_from_values(T_MAX, 0), &mut rec));
    assert_eq!(rec.t, ONE / 2);
    assert_eq!(rec.p, v(0, 0, -ONE - ONE / 2));
    assert_eq!(rec.normal, v(0, 0, ONE));
    assert!(!rec.front_face);
}

#[test]
fn sphere_miss_leaves_record() {
    let s = unit_sphere_ahead();
    let mut rec = HitRecord::new();
    rec.t = 77;
    let away = Ray::new(Vec3::zero(), v(0, 0, ONE));
    assert!(!s.hit(&away, Interval::new_from_values(T_MAX, 0), &mut rec));
    let aside = Ray::new(Vec3::zero(), v(ONE, 0, 0));
    assert!(!s.hit(&aside, Interval::new_from_values(T_MAX, 0), &mut rec));
    let ahead = Ray::new(Vec3::zero(), v(0, 0, -ONE));
    assert!(!s.hit(&ahead, Interval::new_from_values(ONE / 4, 0), &mut rec));
    assert_eq!(rec.t, 77);
    assert_eq!(rec.normal, Vec3::zero());
}

#[test]
fn sphere_zero_direction_misses() {
    let s = unit_sphere_ahead();
    let mut rec = HitRecord::new();
    let r = Ray::new(Vec3::zero(), Vec3::zero());
    assert!(!s.hit(&r, Interval::ray_range(), &mut rec));
}

fn sample_rays() -> Vec<Ray> {
    let mut rays = Vec::new();
    for i in -6..=6i64 {
        for j in -6..=6i64 {
            rays.push(Ray::new(v(i * 997, j * 31, 40), v(i * ONE / 20, j * ONE / 17 + 3, -ONE)));
        }
    }
    rays
}

#[test]
fn hit_point_lies_on_sphere() {
    let s = Sphere::new(v(300, -200, -2 * ONE), 3 * ONE / 4);
    let mut hits = 0;
    for r in sample_rays() {
        let mut rec = HitRecord::new();
        if s.hit(&r, Interval::new_from_values(T_MAX, 0), &mut rec) {
            hits += 1;
            let d = rec.p.sub(s.center);
            let dist = (d.length_squared() as f64).sqrt();
            let radius = s.r as f64;
            assert!((dist - radius).abs() <= 1e-3 * radius, "{} vs {}", dist, radius);
        }
    }
    assert!(hits > 20);
}

#[test]
fn hit_normal_faces_ray() {
    let spheres = [
        Sphere::new(v(300, -200, -2 * ONE), 3 * ONE / 4),
        Sphere::new(v(0, 0, 0), 2 * ONE),
    ];
    let mut hits = 0;
    for s in spheres.iter() {
        for r in sample_rays() {
            let mut rec = HitRecord::new();
            if s.hit(&r, Interval::ray_range(), &mut rec) {
                hits += 1;
                assert!(dot(&rec.normal, &r.direction()) <= 0);
                assert_eq!(rec.front_face, dot(&r.direction(), &rec.normal) < 0);
            }
        }
    }
    assert!(hits > 100);
}

fn overlapping_scene() -> HittableList {
    let mut world = HittableList::new();
    world.add(Sphere::new(v(0, 0, -2 * ONE), ONE));
    world.add(Sphere::new(v(0, 0, -3 * ONE / 2), ONE / 4));
    world.add(Sphere::new(v(ONE / 4, 0, -ONE), ONE / 3));
    world
}

#[test]
fn scene_hit_is_nearest_member_hit() {
    let world = overlapping_scene();
    let mut compared = 0;
    for r in sample_rays() {
        let range = Interval::new_from_values(T_MAX, 0);
        let mut best: Option<HitRecord> = None;
        for s in world.objects.iter() {
            let mut rec = HitRecord::new();
            if s.hit(&r, range, &mut rec) {
                if best.map_or(true, |b| rec.t < b.t) {
                    best = Some(rec);
                }
            }
        }
        let mut rec = HitRecord::new();
        let hit = world.hit(&r, range, &mut rec);
        assert_eq!(hit, best.is_some());
        if let Some(b) = best {
            assert_eq!(rec, b);
            compared += 1;
        } else {
            assert_eq!(rec, HitRecord::new());
        }
    }
    assert!(compared > 20);
}

#[test]
fn scene_hit_picks_nearer_overlapping_sphere() {
    let world = overlapping_scene();
    let r = Ray::new(Vec3::zero(), v(0, 0, -ONE));
    let mut rec = HitRecord::new();
    assert!(world.hit(&r, Interval::new_from_values(T_MAX, 0), &mut rec));
    assert!(rec.t > 51000 && rec.t < 51200, "t = {}", rec.t);
    let mut near = HitRecord::new();
    assert!(world.objects[2].hit(&r, Interval::new_from_values(T_MAX, 0), &mut near));
    assert_eq!(rec, near);
    let mut far = HitRecord::new();
    assert!(world.objects[0].hit(&r, Interval::new_from_values(T_MAX, 0), &mut far));
    assert_eq!(far.t, ONE);
    let mut middle = HitRecord::new();
    assert!(world.objects[1].hit(&r, Interval::new_from_values(T_MAX, 0), &mut middle));
    assert_eq!(middle.t, ONE + ONE / 4);
    assert!(rec.t < far.t && rec.t < middle.t);
}

#[test]
fn scene_equal_hits_keep_first() {
    let mut world = HittableList::new();
    world.add(Sphere::new(v(0, 0, -ONE), ONE / 2));
    world.add(Sphere::new(v(0, 0, -ONE), ONE / 2));
    let r = Ray::new(Vec3::zero(), v(0, 0, -ONE));
    let mut rec = HitRecord::new();
    assert!(world.hit(&r, Interval::new_from_values(T_MAX, 0), &mut rec));
    assert_eq!(rec.t, ONE / 2);
}

#[test]
fn empty_scene_never_hits() {
    let world = HittableList::new();
    let mut rec = HitRecord::new();
    rec.t = 5;
    let r = Ray::new(Vec3::zero(), v(0, 0, -ONE));
    assert!(!world.hit(&r, Interval::ray_range(), &mut rec));
    assert_eq!(rec.t, 5);
}
