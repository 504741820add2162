use crate::color::{clamped_byte, clamped_bytes, push_pixel, pixel_line};
use crate::hittables::{closest_hit, isqrt_spec, HitRecord, HittableList, Sphere};
use crate::interval::Interval;
use crate::ray::{Ray, T_MAX};
use crate::render::line_count;
use crate::vec3::{draw, floor_div, is_isqrt, Vec3, ONE};
use vstd::prelude::*;

verus! {

/// The sky color at the top of the gradient: (0.5, 0.7, 1.0).
pub const SKY_R: i64 = 32768;

pub const SKY_G: i64 = 45875;

pub const SKY_B: i64 = 65536;

/// A pinhole camera at the origin looking down `-z`, with a viewport of
/// height two at focal length one.
#[derive(Clone, Copy, Debug, PartialEq, Eq, Structural)]
pub struct Camera {
    pub image_width: i32,
    pub samples_per_pixel: i32,
    pub image_height: i32,
    pub camera_center: Vec3,
    pub pixel00_loc: Vec3,
    pub pixel_delta_u: Vec3,
    pub pixel_delta_v: Vec3,
}

/// The image height for a width and an aspect ratio `aspect_w / aspect_h`:
/// the width divided by the ratio, rounded down, and at least one.
pub open spec fn derived_height(image_width: int, aspect_w: int, aspect_h: int) -> int {
    if (image_width * aspect_h) / aspect_w < 1 {
        1
    } else {
        (image_width * aspect_h) / aspect_w
    }
}

impl Camera {
    /// The ranges that keep every primary ray within the coordinate range.
    pub open spec fn wf(self) -> bool {
        &&& 1 <= self.image_width
        &&& 1 <= self.image_height <= 0x0400_0000
        &&& 1 <= self.samples_per_pixel
        &&& self.camera_center.is_zero()
        &&& self.pixel00_loc.bounded(0x0400_0000)
        &&& self.pixel00_loc.z == -ONE
        &&& self.pixel_delta_u.y == 0 && self.pixel_delta_u.z == 0
        &&& self.pixel_delta_v.x == 0 && self.pixel_delta_v.z == 0
        &&& 0 <= self.pixel_delta_u.x
        &&& self.pixel_delta_u.x * (self.image_width + 1) <= 0x0800_0000
        &&& self.pixel_delta_v.y <= 0
        &&& -self.pixel_delta_v.y * (self.image_height + 1) <= 0x0800_0000
    }

    /// The viewport width: twice the aspect ratio `aspect_w / aspect_h`,
    /// rounded down to a fixed-point value.
    pub open spec fn viewport_width(aspect_w: int, aspect_h: int) -> int {
        (2 * ONE * aspect_w) / aspect_h
    }

    /// Sets up the camera for an image `image_width` pixels wide with the
    /// aspect ratio `aspect_w / aspect_h`.
    ///
    /// The bounds on the width (at most 262144 pixels) and on the aspect ratio
    /// (between 1/128 and 128) are those of the fixed-point range: they keep
    /// every primary ray's direction within `COORD_MAX`, which the
    /// intersection code needs for its products to fit in 128 bits.
    pub fn init(image_width: i32, aspect_w: i32, aspect_h: i32, samples_per_pixel: i32) -> (c:
        Camera)
        requires
            1 <= image_width <= 0x0004_0000,
            1 <= aspect_w <= 128 * aspect_h,
            1 <= aspect_h <= 128 * aspect_w,
            1 <= samples_per_pixel,
        ensures
            c.wf(),
            c.image_width == image_width,
            c.samples_per_pixel == samples_per_pixel,
            c.image_height == derived_height(image_width as int, aspect_w as int, aspect_h as int),
            c.camera_center.is_zero(),
            ({
                let vw = Self::viewport_width(aspect_w as int, aspect_h as int);
                &&& c.pixel_delta_u == Vec3 { x: (vw / image_width as int) as i64, y: 0, z: 0 }
                &&& c.pixel_delta_v == Vec3 {
                    x: 0,
                    y: ((-2 * ONE) / c.image_height as int) as i64,
                    z: 0,
                }
                &&& c.pixel00_loc.x == (-vw) / 2 + c.pixel_delta_u.x / 2
                &&& c.pixel00_loc.y == ONE + c.pixel_delta_v.y / 2
                &&& c.pixel00_loc.z == -ONE
            }),
    {
        proof {
            assert(image_width * aspect_h <= 0x0004_0000 * 0x7fff_ffff) by (nonlinear_arith)
                requires
                    1 <= image_width <= 0x0004_0000,
                    1 <= aspect_h <= 0x7fff_ffff,
            ;
        }
        let hr = (image_width as i64 * aspect_h as i64) / aspect_w as i64;
        let image_height: i64 = if hr < 1 {
            1
        } else {
            hr
        };
        proof {
            lemma_height_bounds(image_width as int, aspect_w as int, aspect_h as int);
        }
        let viewport_width = (131072 * aspect_w as i64) / aspect_h as i64;
        let du = viewport_width / image_width as i64;
        let dv_wide = floor_div(-131072i128, image_height as i128);
        proof {
            lemma_delta_bounds(
                image_width as int,
                image_height as int,
                aspect_w as int,
                aspect_h as int,
                viewport_width as int,
                du as int,
                dv_wide as int,
            );
        }
        let dv = dv_wide as i64;
        let pixel_delta_u = Vec3::from_values(du, 0, 0);
        let pixel_delta_v = Vec3::from_values(0, dv, 0);
        let pixel00_loc = Vec3::from_values(
            floor_div(-(viewport_width as i128), 2) as i64 + du / 2,
            ONE + floor_div(dv as i128, 2) as i64,
            -ONE,
        );
        Camera {
            image_width,
            samples_per_pixel,
            image_height: image_height as i32,
            camera_center: Vec3::zero(),
            pixel00_loc,
            pixel_delta_u,
            pixel_delta_v,
        }
    }
}

/// The shade of a surface normal: each component mapped from `[-1, 1]` to `[0, 1]`.
pub open spec fn normal_color(n: Vec3) -> Vec3 {
    Vec3 {
        x: ((n.x + ONE) / 2) as i64,
        y: ((n.y + ONE) / 2) as i64,
        z: ((n.z + ONE) / 2) as i64,
    }
}

/// One component of the sky: white blended toward `top` by the weight `a`.
pub open spec fn blend(a: int, top: int) -> int {
    ((ONE - a) * ONE + a * top) / (ONE as int)
}

/// The sky behind a ray: a vertical gradient from white to sky blue, weighted
/// by the height of the unit direction mapped from `[-1, 1]` to `[0, 1]`.
pub open spec fn sky_color(dir: Vec3) -> Vec3 {
    let len = isqrt_spec(dir.dot_spec(dir));
    let uy = (dir.y * ONE) / len;
    let a = (uy + ONE) / 2;
    Vec3 { x: blend(a, SKY_R as int) as i64, y: blend(a, SKY_G as int) as i64, z: blend(a, SKY_B as int) as i64 }
}

/// The color a ray sees in the scene `objs`: the shaded normal of the nearest
/// hit in front of the camera, or the sky.
pub open spec fn shade(objs: Seq<Sphere>, ray: Ray) -> Vec3 {
    match closest_hit(objs, ray, 0, T_MAX as int) {
        Some(h) => normal_color(h.normal),
        None => sky_color(ray.dir),
    }
}

/// An offset inside the pixel's square `[-1/2, 1/2)^2`.
pub open spec fn in_square(o: Vec3) -> bool {
    -ONE / 2 <= o.x < ONE / 2 && -ONE / 2 <= o.y < ONE / 2 && o.z == 0
}

impl Camera {
    /// The primary ray through pixel `(i, j)` moved by `offset`, in pixels.
    pub open spec fn ray_through(self, i: int, j: int, offset: Vec3) -> Ray {
        let su = i * ONE + offset.x;
        let sv = j * ONE + offset.y;
        let p00 = self.pixel00_loc;
        let du = self.pixel_delta_u;
        let dv = self.pixel_delta_v;
        let c = self.camera_center;
        Ray {
            orig: c,
            dir: Vec3 {
                x: (p00.x + (su * du.x) / (ONE as int) + (sv * dv.x) / (ONE as int) - c.x) as i64,
                y: (p00.y + (su * du.y) / (ONE as int) + (sv * dv.y) / (ONE as int) - c.y) as i64,
                z: (p00.z + (su * du.z) / (ONE as int) + (sv * dv.z) / (ONE as int) - c.z) as i64,
            },
        }
    }

    /// The sum of the shades seen through pixel `(i, j)` at each offset.
    pub open spec fn shade_sum(self, objs: Seq<Sphere>, i: int, j: int, offs: Seq<Vec3>) -> (
        int,
        int,
        int,
    )
        decreases offs.len(),
    {
        if offs.len() == 0 {
            (0, 0, 0)
        } else {
            let s = self.shade_sum(objs, i, j, offs.drop_last());
            let c = shade(objs, self.ray_through(i, j, offs.last()));
            (s.0 + c.x, s.1 + c.y, s.2 + c.z)
        }
    }

    /// The bytes of pixel `(i, j)`: the mean of its samples, clamped and scaled.
    pub open spec fn pixel_bytes(self, objs: Seq<Sphere>, i: int, j: int, offs: Seq<Vec3>) -> (
        u8,
        u8,
        u8,
    ) {
        let s = self.shade_sum(objs, i, j, offs);
        let n = offs.len() as int;
        (
            clamped_byte(((s.0 / n) as i64) as int) as u8,
            clamped_byte(((s.1 / n) as i64) as int) as u8,
            clamped_byte(((s.2 / n) as i64) as int) as u8,
        )
    }

    /// The text line of a color: each component clamped to `[0, 0.999]`,
    /// scaled by 255.999 and cut to a byte.
    pub fn write_color(pixel_color: Vec3) -> (r: Vec<u8>)
        ensures
            r@ == pixel_line(
                (
                    clamped_byte(pixel_color.x as int) as u8,
                    clamped_byte(pixel_color.y as int) as u8,
                    clamped_byte(pixel_color.z as int) as u8,
                ),
            ),
    {
        let mut out: Vec<u8> = Vec::new();
        push_pixel(&mut out, clamped_bytes(pixel_color));
        out
    }

    /// Draws a point of the pixel's square, for one anti-aliasing sample.
    pub fn sample_square() -> (r: Vec3)
        ensures
            in_square(r),
    {
        Vec3::from_values(draw(-ONE / 2, ONE / 2), draw(-ONE / 2, ONE / 2), 0)
    }

    /// The ray from the camera center through pixel `(i, j)` moved by `offset`.
    pub fn ray_at_offset(&self, i: i32, j: i32, offset: Vec3) -> (r: Ray)
        requires
            self.wf(),
            0 <= i < self.image_width,
            0 <= j < self.image_height,
            in_square(offset),
        ensures
            r == self.ray_through(i as int, j as int, offset),
            r.wf(),
            !r.dir.is_zero(),
    {
        let su = i as i64 * ONE + offset.x;
        let sv = j as i64 * ONE + offset.y;
        proof {
            lemma_term_bound(su as int, self.pixel_delta_u.x as int, self.image_width as int);
            lemma_term_bound(su as int, self.pixel_delta_u.y as int, self.image_width as int);
            lemma_term_bound(su as int, self.pixel_delta_u.z as int, self.image_width as int);
            lemma_term_bound(sv as int, self.pixel_delta_v.x as int, self.image_height as int);
            lemma_term_bound(sv as int, self.pixel_delta_v.y as int, self.image_height as int);
            lemma_term_bound(sv as int, self.pixel_delta_v.z as int, self.image_height as int);
        }
        let tu = self.pixel_delta_u.mul_div(su, ONE);
        let tv = self.pixel_delta_v.mul_div(sv, ONE);
        proof {
            assert(su * self.pixel_delta_u.z == 0 && sv * self.pixel_delta_v.z == 0) by (nonlinear_arith)
                requires
                    self.pixel_delta_u.z == 0,
                    self.pixel_delta_v.z == 0,
            ;
            assert(tu.z == 0 && tv.z == 0);
            assert(self.pixel00_loc.z == -ONE);
        }
        let pixel_sample = self.pixel00_loc.add(tu).add(tv);
        let ray_origin = self.camera_center;
        let ray_direction = pixel_sample.sub(ray_origin);
        assert(ray_direction.z == -ONE);
        Ray::new(ray_origin, ray_direction)
    }

    /// A ray from the camera center through a random point of pixel `(i, j)`.
    pub fn get_ray(&self, i: i32, j: i32) -> (r: Ray)
        requires
            self.wf(),
            0 <= i < self.image_width,
            0 <= j < self.image_height,
        ensures
            exists|o: Vec3| in_square(o) && r == #[trigger] self.ray_through(i as int, j as int, o),
    {
        let offset = Self::sample_square();
        self.ray_at_offset(i, j, offset)
    }

    /// The color the ray sees: the shaded normal of the nearest hit with a
    /// positive parameter, or the sky gradient.
    pub fn ray_color(r: &Ray, world: &HittableList) -> (c: Vec3)
        requires
            world.wf(),
            r.wf(),
            !r.dir.is_zero(),
        ensures
            c == shade(world.objects@, *r),
            c.bounded(SHADE_MAX as int),
    {
        let mut hit_rec = HitRecord::new();
        if world.hit(r, Interval::new_from_values(T_MAX, 0), &mut hit_rec) {
            let n = hit_rec.normal;
            let lifted = n.add(Vec3::from_values(ONE, ONE, ONE));
            return lifted.mul_div(1, 2);
        }
        let unit_direction = Vec3::unit_vector(&r.direction());
        proof {
            let len = choose|len: int|
                #![trigger is_isqrt(r.dir.dot_spec(r.dir), len)]
                is_isqrt(r.dir.dot_spec(r.dir), len) && len > 0 && unit_direction.same(
                    r.dir.scaled(ONE as int, len),
                );
            crate::hittables::lemma_isqrt_unique(r.dir.dot_spec(r.dir), len);
        }
        let a = (unit_direction.y + ONE) / 2;
        Vec3::from_values(
            ((ONE - a) * ONE + a * SKY_R) / ONE,
            ((ONE - a) * ONE + a * SKY_G) / ONE,
            ((ONE - a) * ONE + a * SKY_B) / ONE,
        )
    }
}

/// Pixels `x0 .. x` of row `j`, left to right.
pub open spec fn row_order(j: int, x0: int, x: int) -> Seq<(int, int)>
    decreases x - x0,
{
    if x <= x0 {
        Seq::empty()
    } else {
        row_order(j, x0, x - 1).push((x - 1, j))
    }
}

/// The pixels of columns `x0 .. x1` and rows `y0 .. y`, row by row from the top.
pub open spec fn pixel_order(x0: int, x1: int, y0: int, y: int) -> Seq<(int, int)>
    decreases y - y0,
{
    if y <= y0 {
        Seq::empty()
    } else {
        pixel_order(x0, x1, y0, y - 1) + row_order(y - 1, x0, x1)
    }
}

/// Where each entry of `drawn` was sampled.
pub open spec fn drawn_pixels(drawn: Seq<(int, int, Seq<Vec3>)>) -> Seq<(int, int)> {
    drawn.map_values(|e: (int, int, Seq<Vec3>)| (e.0, e.1))
}

/// The single sample offset used when a pixel gets one sample: its center.
pub open spec fn centre() -> Seq<Vec3> {
    seq![Vec3 { x: 0, y: 0, z: 0 }]
}

impl Camera {
    /// The text of pixels `x0 .. x` of row `j`, each sampled once at its center.
    pub open spec fn row_text(self, objs: Seq<Sphere>, j: int, x0: int, x: int) -> Seq<u8>
        decreases x - x0,
    {
        if x <= x0 {
            Seq::empty()
        } else {
            self.row_text(objs, j, x0, x - 1) + pixel_line(self.pixel_bytes(objs, x - 1, j, centre()))
        }
    }

    /// The text of columns `x0 .. x1` of rows `y0 .. y`, top to bottom, each
    /// pixel sampled once at its center.
    pub open spec fn band_text(self, objs: Seq<Sphere>, x0: int, x1: int, y0: int, y: int) -> Seq<
        u8,
    >
        decreases y - y0,
    {
        if y <= y0 {
            Seq::empty()
        } else {
            self.band_text(objs, x0, x1, y0, y - 1) + self.row_text(objs, y - 1, x0, x1)
        }
    }

    /// Every drawn pixel got `samples_per_pixel` offsets, each inside the pixel.
    pub open spec fn drawn_ok(self, drawn: Seq<(int, int, Seq<Vec3>)>) -> bool {
        forall|k: int|
            0 <= k < drawn.len() ==> (#[trigger] drawn[k]).2.len() == self.samples_per_pixel
                && forall|m: int| 0 <= m < drawn[k].2.len() ==> in_square(#[trigger] drawn[k].2[m])
    }

    /// The text of the pixels in `drawn`, in order, each the mean of the
    /// colors seen through it at the offsets drawn for it.
    pub open spec fn drawn_text(self, objs: Seq<Sphere>, drawn: Seq<(int, int, Seq<Vec3>)>) -> Seq<
        u8,
    >
        decreases drawn.len(),
    {
        if drawn.len() == 0 {
            Seq::empty()
        } else {
            let e = drawn.last();
            self.drawn_text(objs, drawn.drop_last()) + pixel_line(self.pixel_bytes(objs, e.0, e.1, e.2))
        }
    }

    /// The bytes of pixel `(i, j)`: the mean of the colors seen through it at
    /// each of `offsets`, clamped to `[0, 0.999]` and scaled to a byte.
    pub fn pixel_color(&self, world: &HittableList, i: i32, j: i32, offsets: &Vec<Vec3>) -> (r: (
        u8,
        u8,
        u8,
    ))
        requires
            self.wf(),
            world.wf(),
            0 <= i < self.image_width,
            0 <= j < self.image_height,
            1 <= offsets@.len() <= i32::MAX,
            forall|k: int| 0 <= k < offsets@.len() ==> in_square(#[trigger] offsets@[k]),
        ensures
            r == self.pixel_bytes(world.objects@, i as int, j as int, offsets@),
    {
        let ghost objs = world.objects@;
        let mut sx: i128 = 0;
        let mut sy: i128 = 0;
        let mut sz: i128 = 0;
        let mut k: usize = 0;
        proof {
            assert(offsets@.take(0) =~= Seq::<Vec3>::empty());
        }
        while k < offsets.len()
            invariant
                k <= offsets@.len() <= i32::MAX,
                objs == world.objects@,
                self.wf(),
                world.wf(),
                0 <= i < self.image_width,
                0 <= j < self.image_height,
                forall|m: int| 0 <= m < offsets@.len() ==> in_square(#[trigger] offsets@[m]),
                (sx as int, sy as int, sz as int) == self.shade_sum(
                    objs,
                    i as int,
                    j as int,
                    offsets@.take(k as int),
                ),
                -(k * SHADE_MAX) <= sx <= k * SHADE_MAX,
                -(k * SHADE_MAX) <= sy <= k * SHADE_MAX,
                -(k * SHADE_MAX) <= sz <= k * SHADE_MAX,
            decreases offsets@.len() - k,
        {
            let ray = self.ray_at_offset(i, j, offsets[k]);
            let c = Self::ray_color(&ray, world);
            proof {
                assert(offsets@.take(k + 1).drop_last() =~= offsets@.take(k as int));
                assert(offsets@.take(k + 1).last() == offsets@[k as int]);
            }
            sx = sx + c.x as i128;
            sy = sy + c.y as i128;
            sz = sz + c.z as i128;
            k = k + 1;
        }
        proof {
            assert(offsets@.take(offsets@.len() as int) =~= offsets@);
        }
        let n = offsets.len() as i128;
        proof {
            lemma_mean_bound(sx as int, n as int);
            lemma_mean_bound(sy as int, n as int);
            lemma_mean_bound(sz as int, n as int);
        }
        let mean = Vec3::from_values(
            floor_div(sx, n) as i64,
            floor_div(sy, n) as i64,
            floor_div(sz, n) as i64,
        );
        clamped_bytes(mean)
    }

    /// The text of columns `x_start .. x_end` of rows `y_start .. y_end`, one
    /// line per pixel, rows top to bottom. With one sample per pixel each
    /// pixel is sampled at its center; with more, at random points of it.
    pub fn calculate_chunk(
        &self,
        x_start: i32,
        x_end: i32,
        y_start: i32,
        y_end: i32,
        world: &HittableList,
    ) -> (r: Vec<u8>)
        requires
            self.wf(),
            world.wf(),
            0 <= x_start <= x_end <= self.image_width,
            0 <= y_start <= y_end <= self.image_height,
        ensures
            exists|drawn: Seq<(int, int, Seq<Vec3>)>|
                #![trigger self.drawn_text(world.objects@, drawn)]
                self.drawn_ok(drawn) && drawn_pixels(drawn) == pixel_order(
                    x_start as int,
                    x_end as int,
                    y_start as int,
                    y_end as int,
                ) && r@ == self.drawn_text(world.objects@, drawn),
            line_count(r@) == (y_end - y_start) * (x_end - x_start),
            self.samples_per_pixel == 1 ==> r@ == self.band_text(
                world.objects@,
                x_start as int,
                x_end as int,
                y_start as int,
                y_end as int,
            ),
    {
        let ghost objs = world.objects@;
        let ghost mut drawn: Seq<(int, int, Seq<Vec3>)> = Seq::empty();
        proof {
            assert(drawn_pixels(drawn) =~= Seq::<(int, int)>::empty());
        }
        let mut chunk_res: Vec<u8> = Vec::new();
        let mut j = y_start;
        while j < y_end
            invariant
                self.wf(),
                world.wf(),
                objs == world.objects@,
                0 <= x_start <= x_end <= self.image_width,
                0 <= y_start <= j <= y_end <= self.image_height,
                self.samples_per_pixel == 1 ==> chunk_res@ == self.band_text(
                    objs,
                    x_start as int,
                    x_end as int,
                    y_start as int,
                    j as int,
                ),
                self.drawn_ok(drawn),
                drawn_pixels(drawn) == pixel_order(
                    x_start as int,
                    x_end as int,
                    y_start as int,
                    j as int,
                ),
                chunk_res@ == self.drawn_text(objs, drawn),
            decreases y_end - j,
        {
            let mut i = x_start;
            while i < x_end
                invariant
                    self.wf(),
                    world.wf(),
                    objs == world.objects@,
                    0 <= x_start <= i <= x_end <= self.image_width,
                    0 <= y_start <= j < y_end <= self.image_height,
                    self.samples_per_pixel == 1 ==> chunk_res@ == self.band_text(
                        objs,
                        x_start as int,
                        x_end as int,
                        y_start as int,
                        j as int,
                    ) + self.row_text(objs, j as int, x_start as int, i as int),
                    self.drawn_ok(drawn),
                    drawn_pixels(drawn) == pixel_order(
                        x_start as int,
                        x_end as int,
                        y_start as int,
                        j as int,
                    ) + row_order(j as int, x_start as int, i as int),
                    chunk_res@ == self.drawn_text(objs, drawn),
                decreases x_end - i,
            {
                let offsets = self.sample_offsets();
                let c = self.pixel_color(world, i, j, &offsets);
                push_pixel(&mut chunk_res, c);
                proof {
                    let prev = drawn;
                    drawn = drawn.push((i as int, j as int, offsets@));
                    assert(drawn.drop_last() =~= prev);
                    assert(drawn_pixels(drawn) =~= drawn_pixels(prev).push((i as int, j as int)));
                    assert(drawn_pixels(drawn) =~= pixel_order(
                        x_start as int,
                        x_end as int,
                        y_start as int,
                        j as int,
                    ) + row_order(j as int, x_start as int, i + 1));
                    assert(chunk_res@ == self.drawn_text(objs, drawn));
                    if self.samples_per_pixel == 1 {
                        assert(chunk_res@ =~= self.band_text(
                            objs,
                            x_start as int,
                            x_end as int,
                            y_start as int,
                            j as int,
                        ) + self.row_text(objs, j as int, x_start as int, i + 1));
                    }
                }
                i = i + 1;
            }
            proof {
                if self.samples_per_pixel == 1 {
                    assert(chunk_res@ =~= self.band_text(
                        objs,
                        x_start as int,
                        x_end as int,
                        y_start as int,
                        j + 1,
                    ));
                }
            }
            j = j + 1;
        }
        proof {
            crate::render::lemma_chunk_lines(
                *self,
                objs,
                drawn,
                x_start as int,
                x_end as int,
                y_start as int,
                y_end as int,
            );
        }
        chunk_res
    }

    /// The sample offsets for one pixel: its center alone when the camera
    /// takes one sample per pixel, otherwise that many random points of it.
    pub fn sample_offsets(&self) -> (r: Vec<Vec3>)
        requires
            1 <= self.samples_per_pixel,
        ensures
            r@.len() == self.samples_per_pixel,
            forall|k: int| 0 <= k < r@.len() ==> in_square(#[trigger] r@[k]),
            self.samples_per_pixel == 1 ==> r@ == centre(),
    {
        let mut r: Vec<Vec3> = Vec::new();
        if self.samples_per_pixel == 1 {
            r.push(Vec3::zero());
            proof {
                assert(r@ =~= centre());
            }
            return r;
        }
        let mut k: i32 = 0;
        while k < self.samples_per_pixel
            invariant
                0 <= k <= self.samples_per_pixel,
                r@.len() == k,
                forall|m: int| 0 <= m < r@.len() ==> in_square(#[trigger] r@[m]),
            decreases self.samples_per_pixel - k,
        {
            r.push(Self::sample_square());
            k = k + 1;
        }
        r
    }
}

proof fn lemma_mean_bound(s: int, n: int)
    requires
        1 <= n,
        -(n * SHADE_MAX) <= s <= n * SHADE_MAX,
    ensures
        -SHADE_MAX <= s / n <= SHADE_MAX,
{
    vstd::arithmetic::div_mod::lemma_fundamental_div_mod(s, n);
    assert(-SHADE_MAX <= s / n <= SHADE_MAX) by (nonlinear_arith)
        requires
            s == n * (s / n) + s % n,
            0 <= s % n < n,
            1 <= n,
            -(n * SHADE_MAX) <= s <= n * SHADE_MAX,
            SHADE_MAX == 0x0400_2000_0000_0000,
    ;
}

/// A bound on the components of any shade.
pub const SHADE_MAX: i64 = 0x0400_2000_0000_0000;

/// `(s * d) / ONE` stays within the budget `|d| * (n + 1)` when `s` is a
/// sample position along a row or column of `n` pixels.
proof fn lemma_term_bound(s: int, d: int, n: int)
    requires
        -32768 <= s <= n * 65536,
        0 <= n,
    ensures
        -(abs_int(d) * (n + 1)) <= (s * d) / 65536 <= abs_int(d) * (n + 1),
{
    let b = abs_int(d) * (n + 1);
    assert(-(b * 65536) <= s * d <= b * 65536) by (nonlinear_arith)
        requires
            -32768 <= s <= n * 65536,
            0 <= n,
            b == abs_int(d) * (n + 1),
            abs_int(d) == if d < 0 { -d } else { d },
    ;
    vstd::arithmetic::div_mod::lemma_div_is_ordered(-(b * 65536), s * d, 65536);
    vstd::arithmetic::div_mod::lemma_div_is_ordered(s * d, b * 65536, 65536);
    assert((-(b * 65536)) / 65536 == -b);
    assert((b * 65536) / 65536 == b);
}

pub open spec fn abs_int(a: int) -> int {
    if a < 0 { -a } else { a }
}

proof fn lemma_height_bounds(w: int, aw: int, ah: int)
    requires
        1 <= w <= 0x0004_0000,
        1 <= aw <= 128 * ah,
        1 <= ah <= 128 * aw,
    ensures
        1 <= derived_height(w, aw, ah) <= 0x0200_0000,
{
    let hr = (w * ah) / aw;
    vstd::arithmetic::div_mod::lemma_fundamental_div_mod(w * ah, aw);
    let m = (w * ah) % aw;
    assert(w * ah == aw * hr + m && 0 <= m < aw);
    if hr >= 1 {
        assert(hr <= 0x0200_0000) by (nonlinear_arith)
            requires
                w * ah == aw * hr + m,
                0 <= m,
                1 <= w <= 0x0004_0000,
                1 <= ah <= 128 * aw,
                aw >= 1,
        ;
    }
}

proof fn lemma_delta_bounds(w: int, h: int, aw: int, ah: int, vw: int, du: int, dv: int)
    requires
        1 <= w,
        1 <= h <= 0x0200_0000,
        1 <= aw <= 128 * ah,
        1 <= ah,
        vw == (2 * 65536 * aw) / ah,
        du == vw / w,
        dv == (-2 * 65536) / h,
    ensures
        0 <= vw <= 0x0200_0000,
        0 <= du,
        du * (w + 1) <= 0x0800_0000,
        dv <= 0,
        -dv * (h + 1) <= 0x0800_0000,
        -dv <= 2 * 65536,
{
    vstd::arithmetic::div_mod::lemma_fundamental_div_mod(2 * 65536 * aw, ah);
    assert(0 <= vw <= 0x0200_0000) by (nonlinear_arith)
        requires
            2 * 65536 * aw == ah * vw + (2 * 65536 * aw) % ah,
            0 <= (2 * 65536 * aw) % ah < ah,
            1 <= aw <= 128 * ah,
            ah >= 1,
    ;
    vstd::arithmetic::div_mod::lemma_fundamental_div_mod(vw, w);
    assert(0 <= du && du * (w + 1) <= 0x0800_0000) by (nonlinear_arith)
        requires
            vw == w * du + vw % w,
            0 <= vw % w < w,
            0 <= vw <= 0x0200_0000,
            w >= 1,
    ;
    vstd::arithmetic::div_mod::lemma_fundamental_div_mod(-2 * 65536, h);
    assert(dv <= 0 && -dv <= 2 * 65536 && -dv * (h + 1) <= 0x0800_0000) by (nonlinear_arith)
        requires
            -2 * 65536 == h * dv + (-2 * 65536) % h,
            0 <= (-2 * 65536) % h < h,
            1 <= h <= 0x0200_0000,
    ;
}

} // verus!
