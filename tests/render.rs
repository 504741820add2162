use raytrace::camera::Camera;
use raytrace::color::{clamped_bytes, push_decimal, push_header, push_pixel, write_color};
use raytrace::hittables::{HittableList, Sphere};
use raytrace::render::{assemble, bands, image_text, RenderError};
use raytrace::vec3::{Vec3, ONE};

fn v(x: i64, y: i64, z: i64) -> Vec3 {
    Vec3::from_values(x, y, z)
}

fn text(b: Vec<u8>) -> String {
    String::from_utf8(b).unwrap()
}

fn demo_world() -> HittableList {
    let mut world = HittableList::new();
    world.add(Sphere::new(v(0, 0, -ONE), ONE / 2));
    world.add(Sphere::new(v(0, -100 * ONE - ONE / 2, -ONE), 100 * ONE));
    world
}

#[test]
fn decimal_text() {
    let mut out = Vec::new();
    push_decimal(&mut out, 0);
    push_decimal(&mut out, 7);
    push_decimal(&mut out, 10);
    push_decimal(&mut out, 4294967295);
    assert_eq!(text(out), "07104294967295");
}

#[test]
fn pixel_line_text() {
    let mut out = Vec::new();
    push_pixel(&mut out, (0, 128, 255));
    assert_eq!(text(out), "0 128 255\n");
}

#[test]
fn header_text() {
    let mut out = Vec::new();
    push_header(&mut out, 400, 225);
    assert_eq!(text(out), "P3\n400 225\n255\n");
}

#[test]
fn write_color_scales_without_clamp() {
    assert_eq!(text(write_color(v(0, 0, 0))), "0 0 0\n");
    assert_eq!(text(write_color(v(ONE, ONE / 2, ONE / 4))), "255 127 63\n");
    assert_eq!(text(write_color(v(2 * ONE, -ONE, 3 * ONE / 4))), "255 0 191\n");
}

#[test]
fn color_conversion_boundaries() {
    assert_eq!(clamped_bytes(v(0, 0, 0)), (0, 0, 0));
    assert_eq!(clamped_bytes(v(ONE, ONE, ONE)), (255, 255, 255));
    assert_eq!(clamped_bytes(v(-ONE, 2 * ONE, ONE / 2)), (0, 255, 127));
}

#[test]
fn camera_write_color_clamps_before_scaling() {
    assert_eq!(text(Camera::write_color(v(0, 0, 0))), "0 0 0\n");
    assert_eq!(text(Camera::write_color(v(ONE, ONE, ONE))), "255 255 255\n");
    assert_eq!(text(Camera::write_color(v(-ONE, ONE / 2, 5 * ONE))), "0 127 255\n");
    assert_eq!(text(Camera::write_color(v(65470, 65469, 256))), "255 255 0\n");
}

#[test]
fn camera_init_derives_height_and_deltas() {
    let cam = Camera::init(400, 16, 9, 10);
    assert_eq!(cam.image_width, 400);
    assert_eq!(cam.image_height, 225);
    assert_eq!(cam.samples_per_pixel, 10);
    assert_eq!(cam.camera_center, Vec3::zero());
    let vw = (2 * ONE * 16) / 9;
    assert_eq!(vw, 233016);
    assert_eq!(cam.pixel_delta_u, v(582, 0, 0));
    assert_eq!(cam.pixel00_loc.x(), -vw / 2 + 582 / 2);
    assert_eq!(cam.pixel_delta_v, v(0, (-2 * ONE).div_euclid(225), 0));
    assert_eq!(cam.pixel00_loc.z(), -ONE);
}

#[test]
fn viewport_width_follows_aspect_ratio() {
    let cam = Camera::init(401, 16, 9, 1);
    assert_eq!(cam.image_height, 225);
    assert_eq!(cam.pixel_delta_u, v(581, 0, 0));
}

#[test]
fn camera_height_at_least_one() {
    let cam = Camera::init(1, 128, 1, 1);
    assert_eq!(cam.image_height, 1);
    let cam = Camera::init(2, 2, 1, 1);
    assert_eq!(cam.image_height, 1);
}

#[test]
fn camera_rays_aim_at_pixel_centers() {
    let cam = Camera::init(2, 2, 1, 1);
    assert_eq!(cam.pixel00_loc, v(-ONE, 0, -ONE));
    let left = cam.ray_at_offset(0, 0, Vec3::zero());
    assert_eq!(left.origin(), Vec3::zero());
    assert_eq!(left.direction(), v(-ONE, 0, -ONE));
    let right = cam.ray_at_offset(1, 0, Vec3::zero());
    assert_eq!(right.direction(), v(ONE, 0, -ONE));
    let moved = cam.ray_at_offset(1, 0, v(ONE / 4, -ONE / 4, 0));
    assert_eq!(moved.direction(), v(ONE + ONE / 2, ONE / 2, -ONE));
}

#[test]
fn get_ray_stays_inside_pixel() {
    let cam = Camera::init(2, 2, 1, 1);
    for _ in 0..100 {
        let d = cam.get_ray(1, 0).direction();
        assert!(d.x() >= 0 && d.x() < 2 * ONE);
        assert!(d.y() > -ONE && d.y() <= ONE);
        assert_eq!(d.z(), -ONE);
    }
}

#[test]
fn sample_square_in_range() {
    for _ in 0..100 {
        let o = Camera::sample_square();
        assert!(-ONE / 2 <= o.x() && o.x() < ONE / 2);
        assert!(-ONE / 2 <= o.y() && o.y() < ONE / 2);
        assert_eq!(o.z(), 0);
    }
}

#[test]
fn sample_offsets_counts() {
    let one = Camera::init(4, 1, 1, 1);
    assert_eq!(one.sample_offsets(), vec![Vec3::zero()]);
    let many = Camera::init(4, 1, 1, 5);
    assert_eq!(many.sample_offsets().len(), 5);
}

#[test]
fn ray_color_sky_and_normal() {
    let world = demo_world();
    let cam = Camera::init(2, 2, 1, 1);
    let sky = Camera::ray_color(&cam.ray_at_offset(0, 0, Vec3::zero()), &HittableList::new());
    assert_eq!(sky, v(49152, 55705, 65536));
    let straight = raytrace::ray::Ray::new(Vec3::zero(), v(0, 0, -ONE));
    assert_eq!(Camera::ray_color(&straight, &world), v(ONE / 2, ONE / 2, ONE));
    let up = raytrace::ray::Ray::new(Vec3::zero(), v(0, ONE, 0));
    assert_eq!(Camera::ray_color(&up, &HittableList::new()), v(ONE / 2, 45875, ONE));
}

#[test]
fn two_pixel_empty_scene() {
    let cam = Camera::init(2, 2, 1, 1);
    assert_eq!(cam.image_height, 1);
    let world = HittableList::new();
    let body = cam.calculate_chunk(0, 2, 0, 1, &world);
    assert_eq!(text(body.clone()), "191 217 255\n191 217 255\n");
    let image = image_text(2, 1, body);
    assert_eq!(text(image), "P3\n2 1\n255\n191 217 255\n191 217 255\n");
}

#[test]
fn pixel_color_averages_samples() {
    let cam = Camera::init(2, 2, 1, 2);
    let world = HittableList::new();
    let centre = cam.pixel_color(&world, 0, 0, &vec![Vec3::zero()]);
    assert_eq!(centre, (191, 217, 255));
    let twice = cam.pixel_color(&world, 0, 0, &vec![Vec3::zero(), Vec3::zero()]);
    assert_eq!(twice, centre);
}

#[test]
fn bands_equal_with_remainder_last() {
    assert_eq!(bands(10, 4), vec![(0, 2), (2, 4), (4, 6), (6, 10)]);
    let mut few_rows = vec![(0, 0); 7];
    few_rows.push((0, 3));
    assert_eq!(bands(3, 8), few_rows);
    assert_eq!(bands(1, 2), vec![(0, 0), (0, 1)]);
    assert_eq!(bands(10, 3), vec![(0, 3), (3, 6), (6, 10)]);
    assert_eq!(bands(7, 1), vec![(0, 7)]);
}

#[test]
fn assemble_orders_by_band_number() {
    let results = vec![(2, b"c".to_vec()), (0, b"a".to_vec()), (1, b"b".to_vec())];
    assert_eq!(assemble(3, results), Ok(b"abc".to_vec()));
    assert_eq!(assemble(0, Vec::new()), Ok(Vec::new()));
}

#[test]
fn assemble_rejects_bad_bands() {
    let dup = vec![(0, b"a".to_vec()), (0, b"b".to_vec())];
    assert_eq!(assemble(2, dup), Err(RenderError::BadBands));
    let missing = vec![(1, b"b".to_vec())];
    assert_eq!(assemble(2, missing), Err(RenderError::BadBands));
    let outside = vec![(0, b"a".to_vec()), (2, b"c".to_vec())];
    assert_eq!(assemble(2, outside), Err(RenderError::BadBands));
}

fn render_with(cam: &Camera, world: &HittableList, workers: usize) -> Vec<u8> {
    let parts = bands(cam.image_height, workers);
    let mut results = Vec::new();
    for (k, (y0, y1)) in parts.iter().enumerate().rev() {
        results.push((k, cam.calculate_chunk(0, cam.image_width, *y0, *y1, world)));
    }
    let body = assemble(parts.len(), results).unwrap();
    image_text(cam.image_width as u32, cam.image_height as u32, body)
}

#[test]
fn one_worker_matches_many() {
    let cam = Camera::init(24, 16, 9, 1);
    let world = demo_world();
    let single = render_with(&cam, &world, 1);
    for workers in [2usize, 3, 4, 7, 13, 64] {
        assert_eq!(render_with(&cam, &world, workers), single);
    }
}

#[test]
fn image_has_header_and_one_line_per_pixel() {
    let cam = Camera::init(24, 16, 9, 1);
    let out = text(render_with(&cam, &demo_world(), 4));
    let lines: Vec<&str> = out.lines().collect();
    assert_eq!(lines.len(), 3 + 24 * 13);
    assert_eq!(&lines[..3], &["P3", "24 13", "255"]);
    for l in &lines[3..] {
        let parts: Vec<u32> = l.split(' ').map(|p| p.parse().unwrap()).collect();
        assert_eq!(parts.len(), 3);
        assert!(parts.iter().all(|c| *c <= 255));
    }
}

#[test]
fn many_samples_render_full_image() {
    let cam = Camera::init(8, 2, 1, 4);
    let out = text(render_with(&cam, &demo_world(), 2));
    assert_eq!(out.lines().count(), 3 + 8 * 4);
}
