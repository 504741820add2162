use crate::camera::{drawn_pixels, pixel_order, row_order, Camera};
use crate::vec3::Vec3;
use crate::color::{decimal, header, pixel_line, push_header};
use crate::hittables::Sphere;
use vstd::prelude::*;

verus! {

/// Why a parallel render produced no image.
#[derive(Clone, Copy, Debug, PartialEq, Eq, Structural)]
pub enum RenderError {
    /// A worker stopped before handing back its band.
    WorkerFailed,
    /// The bands handed back are not exactly one for each band number.
    BadBands,
}

/// How many bands an image is cut into for `workers` workers: one per worker.
pub open spec fn band_count(h: int, workers: int) -> int {
    workers
}

/// Rows `[start, end)` of band `k` out of `n`: bands of `h / n` rows, the last
/// one taking the remaining rows. When there are fewer rows than bands, all
/// bands but the last are empty.
pub open spec fn band_of(h: int, n: int, k: int) -> (int, int) {
    let dim = h / n;
    (k * dim, if k == n - 1 {
        h
    } else {
        (k + 1) * dim
    })
}

/// The texts `f(0), f(1), .., f(n - 1)` one after another.
pub open spec fn joined(f: spec_fn(int) -> Seq<u8>, n: int) -> Seq<u8>
    decreases n,
{
    if n <= 0 {
        Seq::empty()
    } else {
        joined(f, n - 1) + f(n - 1)
    }
}

/// The number of line ends in a text.
pub open spec fn line_count(s: Seq<u8>) -> int
    decreases s.len(),
{
    if s.len() == 0 {
        0
    } else {
        line_count(s.drop_last()) + if s.last() == 10u8 {
            1int
        } else {
            0
        }
    }
}

/// Cuts the rows of an image into horizontal bands, one per worker. The
/// number of workers is limited to `i32::MAX` so that band numbers fit the
/// row type.
pub fn bands(image_height: i32, workers: usize) -> (r: Vec<(i32, i32)>)
    requires
        0 <= image_height,
        1 <= workers <= i32::MAX,
    ensures
        r@.len() == band_count(image_height as int, workers as int),
        forall|k: int|
            0 <= k < r@.len() ==> (#[trigger] r@[k]).0 == band_of(
                image_height as int,
                r@.len() as int,
                k,
            ).0 && r@[k].1 == band_of(image_height as int, r@.len() as int, k).1,
{
    let n: i32 = workers as i32;
    let dim = image_height / n;
    let mut r: Vec<(i32, i32)> = Vec::new();
    let mut k: i32 = 0;
    while k < n
        invariant
            1 <= n,
            0 <= image_height,
            n == band_count(image_height as int, workers as int),
            dim == image_height / n,
            0 <= k <= n,
            r@.len() == k,
            forall|m: int|
                0 <= m < k ==> (#[trigger] r@[m]).0 == band_of(image_height as int, n as int, m).0
                    && r@[m].1 == band_of(image_height as int, n as int, m).1,
        decreases n - k,
    {
        proof {
            lemma_band_fits(image_height as int, n as int, k as int);
        }
        let start = k * dim;
        let end = if k == n - 1 {
            image_height
        } else {
            (k + 1) * dim
        };
        r.push((start, end));
        k = k + 1;
    }
    r
}

proof fn lemma_band_fits(h: int, n: int, k: int)
    requires
        1 <= n,
        0 <= h,
        0 <= k < n,
    ensures
        0 <= k * (h / n),
        k * (h / n) <= (k + 1) * (h / n),
        (k + 1) * (h / n) <= h,
        0 <= h / n,
{
    vstd::arithmetic::div_mod::lemma_fundamental_div_mod(h, n);
    assert(0 <= k * (h / n) && k * (h / n) <= (k + 1) * (h / n) && (k + 1) * (h / n) <= h && 0
        <= h / n) by (nonlinear_arith)
        requires
            h == n * (h / n) + h % n,
            0 <= h % n < n,
            1 <= n,
            0 <= h,
            0 <= k < n,
    ;
}

/// The `n` bands cut an image of height `h` into contiguous runs of rows that
/// start at the top row and end at the bottom one; each run has `h / n` rows
/// but the last, which has the rest.
pub proof fn lemma_bands_partition(h: int, n: int)
    requires
        1 <= n,
        0 <= h,
    ensures
        band_of(h, n, 0).0 == 0,
        band_of(h, n, n - 1).1 == h,
        forall|k: int| 0 <= k < n - 1 ==> #[trigger] band_of(h, n, k).1 == band_of(h, n, k + 1).0,
        forall|k: int|
            0 <= k < n - 1 ==> #[trigger] band_of(h, n, k).1 - band_of(h, n, k).0 == h / n,
        forall|k: int| 0 <= k < n ==> #[trigger] band_of(h, n, k).0 <= band_of(h, n, k).1,
{
    assert forall|k: int| 0 <= k < n implies #[trigger] band_of(h, n, k).0 <= band_of(h, n, k).1 by {
        lemma_band_fits(h, n, k);
    }
    assert forall|k: int| 0 <= k < n - 1 implies #[trigger] band_of(h, n, k).1 - band_of(h, n, k).0
        == h / n by {
        assert((k + 1) * (h / n) - k * (h / n) == h / n) by (nonlinear_arith);
    }
}

/// Some entry of `rs` is the band numbered `k`.
pub open spec fn has_band(rs: Seq<(usize, Vec<u8>)>, k: int) -> bool {
    exists|i: int| 0 <= i < rs.len() && #[trigger] rs[i].0 == k
}

/// The entries of `rs` carry each band number below `n` exactly once.
pub open spec fn bands_exact(rs: Seq<(usize, Vec<u8>)>, n: int) -> bool {
    &&& forall|i: int| 0 <= i < rs.len() ==> #[trigger] rs[i].0 < n
    &&& forall|i: int, j: int| 0 <= i < j < rs.len() ==> #[trigger] rs[i].0 != #[trigger] rs[j].0
    &&& forall|k: int| 0 <= k < n ==> has_band(rs, k)
}

/// The text of the entry of `rs` numbered `k`.
pub open spec fn block(rs: Seq<(usize, Vec<u8>)>, k: int) -> Seq<u8> {
    rs[choose|i: int| 0 <= i < rs.len() && #[trigger] rs[i].0 == k].1@
}

/// Puts the bands that the workers handed back, in whatever order they
/// finished, into the slot of their band number, then joins the slots top to
/// bottom.
pub fn assemble(n: usize, results: Vec<(usize, Vec<u8>)>) -> (r: Result<Vec<u8>, RenderError>)
    ensures
        r is Ok <==> bands_exact(results@, n as int),
        r matches Ok(out) ==> out@ == joined(|k: int| block(results@, k), n as int),
        r matches Err(e) ==> e == RenderError::BadBands,
{
    let ghost rs = results@;
    let mut pending = results;
    let mut slots: Vec<Vec<u8>> = Vec::new();
    let mut filled: Vec<bool> = Vec::new();
    let mut k: usize = 0;
    while k < n
        invariant
            k <= n,
            slots@.len() == k,
            filled@.len() == k,
            forall|m: int| 0 <= m < k ==> !(#[trigger] filled@[m]),
        decreases n - k,
    {
        slots.push(Vec::new());
        filled.push(false);
        k = k + 1;
    }
    while pending.len() > 0
        invariant
            rs == results@,
            pending@ == rs.take(pending@.len() as int),
            pending@.len() <= rs.len(),
            slots@.len() == n,
            filled@.len() == n,
            forall|i: int|
                pending@.len() <= i < rs.len() ==> #[trigger] rs[i].0 < n && filled@[rs[i].0 as int]
                    && slots@[rs[i].0 as int]@ == rs[i].1@,
            forall|i: int, j: int|
                pending@.len() <= i < j < rs.len() ==> #[trigger] rs[i].0 != #[trigger] rs[j].0,
            forall|m: int|
                0 <= m < n && #[trigger] filled@[m] ==> exists|i: int|
                    pending@.len() <= i < rs.len() && #[trigger] rs[i].0 == m,
        decreases pending@.len(),
    {
        let ghost before = pending@.len() as int - 1;
        let (idx, text) = pending.pop().unwrap();
        proof {
            assert(rs[before] == (idx, text));
        }
        if idx >= n {
            proof {
                assert(!bands_exact(rs, n as int)) by {
                    assert(0 <= before < rs.len());
                    assert(!(rs[before].0 < n));
                }
            }
            return Err(RenderError::BadBands);
        }
        if filled[idx] {
            proof {
                let i = choose|i: int| before < i < rs.len() && #[trigger] rs[i].0 == idx;
                assert(rs[before].0 == rs[i].0);
                assert(!bands_exact(rs, n as int)) by {
                    assert(0 <= before < i < rs.len() && rs[before].0 == rs[i].0);
                }
            }
            return Err(RenderError::BadBands);
        }
        slots.set(idx, text);
        filled.set(idx, true);
        proof {
            assert(pending@ =~= rs.take(before));
            assert forall|m: int| 0 <= m < n && #[trigger] filled@[m] implies exists|i: int|
                before <= i < rs.len() && #[trigger] rs[i].0 == m by {
                if m == idx {
                    assert(rs[before].0 == m);
                } else {
                    let i = choose|i: int| before < i < rs.len() && #[trigger] rs[i].0 == m;
                    assert(rs[i].0 == m);
                }
            }
        }
    }
    let mut out: Vec<u8> = Vec::new();
    let mut k: usize = 0;
    while k < n
        invariant
            rs == results@,
            k <= n,
            slots@.len() == n,
            filled@.len() == n,
            forall|i: int| 0 <= i < rs.len() ==> #[trigger] rs[i].0 < n,
            forall|i: int, j: int| 0 <= i < j < rs.len() ==> #[trigger] rs[i].0 != #[trigger] rs[j].0,
            forall|i: int|
                0 <= i < rs.len() ==> #[trigger] filled@[rs[i].0 as int] && (rs[i].0 >= k
                    ==> slots@[rs[i].0 as int]@ == rs[i].1@),
            forall|m: int|
                0 <= m < n && #[trigger] filled@[m] ==> exists|i: int|
                    0 <= i < rs.len() && #[trigger] rs[i].0 == m,
            forall|m: int| 0 <= m < k ==> has_band(rs, m),
            out@ == joined(|m: int| block(rs, m), k as int),
        decreases n - k,
    {
        if !filled[k] {
            proof {
                if has_band(rs, k as int) {
                    let i = choose|i: int| 0 <= i < rs.len() && #[trigger] rs[i].0 == k;
                    assert(filled@[rs[i].0 as int]);
                }
                assert(!has_band(rs, k as int));
                assert(!bands_exact(rs, n as int));
            }
            return Err(RenderError::BadBands);
        }
        let mut text: Vec<u8> = Vec::new();
        let ghost old_slots = slots@;
        slots.set_and_swap(k, &mut text);
        proof {
            let i = choose|i: int| 0 <= i < rs.len() && #[trigger] rs[i].0 == k;
            assert(has_band(rs, k as int));
            let c = choose|c: int| 0 <= c < rs.len() && #[trigger] rs[c].0 == k;
            if c != i {
                if c < i {
                    assert(rs[c].0 != rs[i].0);
                } else {
                    assert(rs[i].0 != rs[c].0);
                }
            }
            assert(text@ == block(rs, k as int));
        }
        out.append(&mut text);
        let ghost prev = k as int;
        k = k + 1;
        proof {
            assert forall|i: int| 0 <= i < rs.len() implies #[trigger] filled@[rs[i].0 as int] && (
            rs[i].0 >= k ==> slots@[rs[i].0 as int]@ == rs[i].1@) by {
                assert(filled@[rs[i].0 as int]);
                if rs[i].0 >= k {
                    assert(rs[i].0 != prev);
                    assert(old_slots[rs[i].0 as int]@ == rs[i].1@);
                    assert(slots@[rs[i].0 as int] == old_slots[rs[i].0 as int]);
                }
            }
        }
    }
    Ok(out)
}

/// The texts of the `n` bands of the image, each rendered on its own.
pub open spec fn band_texts(cam: Camera, objs: Seq<Sphere>, n: int) -> spec_fn(int) -> Seq<u8> {
    |k: int|
        cam.band_text(
            objs,
            0,
            cam.image_width as int,
            band_of(cam.image_height as int, n, k).0,
            band_of(cam.image_height as int, n, k).1,
        )
}

/// Rows `y0 .. y1` followed by rows `y1 .. y2` are rows `y0 .. y2`.
pub proof fn lemma_band_text_split(
    cam: Camera,
    objs: Seq<Sphere>,
    x0: int,
    x1: int,
    y0: int,
    y1: int,
    y2: int,
)
    requires
        y0 <= y1 <= y2,
    ensures
        cam.band_text(objs, x0, x1, y0, y2) == cam.band_text(objs, x0, x1, y0, y1) + cam.band_text(
            objs,
            x0,
            x1,
            y1,
            y2,
        ),
    decreases y2 - y1,
{
    if y2 > y1 {
        lemma_band_text_split(cam, objs, x0, x1, y0, y1, y2 - 1);
        assert(cam.band_text(objs, x0, x1, y0, y2) =~= cam.band_text(objs, x0, x1, y0, y1)
            + cam.band_text(objs, x0, x1, y1, y2));
    } else {
        assert(cam.band_text(objs, x0, x1, y0, y2) =~= cam.band_text(objs, x0, x1, y0, y1)
            + cam.band_text(objs, x0, x1, y1, y2));
    }
}

proof fn lemma_joined_prefix(cam: Camera, objs: Seq<Sphere>, n: int, k: int)
    requires
        1 <= n,
        0 <= cam.image_height,
        0 <= k <= n,
    ensures
        joined(band_texts(cam, objs, n), k) == cam.band_text(
            objs,
            0,
            cam.image_width as int,
            0,
            if k == 0 {
                0
            } else {
                band_of(cam.image_height as int, n, k - 1).1
            },
        ),
    decreases k,
{
    let h = cam.image_height as int;
    let w = cam.image_width as int;
    lemma_bands_partition(h, n);
    if k > 0 {
        lemma_joined_prefix(cam, objs, n, k - 1);
        let start = band_of(h, n, k - 1).0;
        let end = band_of(h, n, k - 1).1;
        if k > 1 {
            assert(band_of(h, n, k - 2).1 == band_of(h, n, k - 1).0);
        }
        assert(start <= end);
        lemma_band_text_split(cam, objs, 0, w, 0, start, end);
    }
}

/// Cutting the image into bands for any number of workers and joining the
/// bands' texts in band order gives exactly the text of the image rendered
/// as one band, so one worker and many produce the same bytes.
pub proof fn lemma_bands_reassemble(cam: Camera, objs: Seq<Sphere>, workers: int)
    requires
        1 <= workers,
        0 <= cam.image_height,
    ensures
        joined(
            band_texts(cam, objs, band_count(cam.image_height as int, workers)),
            band_count(cam.image_height as int, workers),
        ) == cam.band_text(objs, 0, cam.image_width as int, 0, cam.image_height as int),
{
    let n = band_count(cam.image_height as int, workers);
    lemma_joined_prefix(cam, objs, n, n);
}

proof fn lemma_line_count_add(a: Seq<u8>, b: Seq<u8>)
    ensures
        line_count(a + b) == line_count(a) + line_count(b),
    decreases b.len(),
{
    if b.len() == 0 {
        assert(a + b =~= a);
    } else {
        lemma_line_count_add(a, b.drop_last());
        assert((a + b).drop_last() =~= a + b.drop_last());
    }
}

proof fn lemma_line_count_single(x: u8)
    ensures
        line_count(seq![x]) == if x == 10u8 {
            1int
        } else {
            0
        },
{
    assert(seq![x].drop_last() =~= Seq::<u8>::empty());
    assert(line_count(Seq::<u8>::empty()) == 0);
    assert(seq![x].last() == x);
}

proof fn lemma_decimal_lines(n: nat)
    ensures
        line_count(decimal(n)) == 0,
    decreases n,
{
    if n < 10 {
        lemma_line_count_single((48 + n) as u8);
    } else {
        lemma_decimal_lines(n / 10);
        assert(decimal(n).drop_last() =~= decimal(n / 10));
    }
}

proof fn lemma_pixel_lines(c: (u8, u8, u8))
    ensures
        line_count(pixel_line(c)) == 1,
{
    let d0 = decimal(c.0 as nat);
    let d1 = decimal(c.1 as nat);
    let d2 = decimal(c.2 as nat);
    lemma_decimal_lines(c.0 as nat);
    lemma_decimal_lines(c.1 as nat);
    lemma_decimal_lines(c.2 as nat);
    lemma_line_count_single(32u8);
    lemma_line_count_single(10u8);
    lemma_line_count_add(d0, seq![32u8]);
    lemma_line_count_add(d0 + seq![32u8], d1);
    lemma_line_count_add(d0 + seq![32u8] + d1, seq![32u8]);
    lemma_line_count_add(d0 + seq![32u8] + d1 + seq![32u8], d2);
    lemma_line_count_add(d0 + seq![32u8] + d1 + seq![32u8] + d2, seq![10u8]);
}

proof fn lemma_header_lines(width: nat, height: nat)
    ensures
        line_count(header(width, height)) == 3,
{
    let dw = decimal(width);
    let dh = decimal(height);
    let tag = seq![80u8, 51u8, 10u8];
    let tail = seq![10u8, 50u8, 53u8, 53u8, 10u8];
    assert(tag =~= seq![80u8] + seq![51u8] + seq![10u8]);
    assert(tail =~= seq![10u8] + seq![50u8] + seq![53u8] + seq![53u8] + seq![10u8]);
    lemma_line_count_single(80u8);
    lemma_line_count_single(51u8);
    lemma_line_count_single(10u8);
    lemma_line_count_single(50u8);
    lemma_line_count_single(53u8);
    lemma_line_count_single(32u8);
    lemma_line_count_add(seq![80u8], seq![51u8]);
    lemma_line_count_add(seq![80u8] + seq![51u8], seq![10u8]);
    lemma_line_count_add(seq![10u8], seq![50u8]);
    lemma_line_count_add(seq![10u8] + seq![50u8], seq![53u8]);
    lemma_line_count_add(seq![10u8] + seq![50u8] + seq![53u8], seq![53u8]);
    lemma_line_count_add(seq![10u8] + seq![50u8] + seq![53u8] + seq![53u8], seq![10u8]);
    lemma_decimal_lines(width);
    lemma_decimal_lines(height);
    lemma_line_count_add(tag, dw);
    lemma_line_count_add(tag + dw, seq![32u8]);
    lemma_line_count_add(tag + dw + seq![32u8], dh);
    lemma_line_count_add(tag + dw + seq![32u8] + dh, tail);
}

proof fn lemma_row_lines(cam: Camera, objs: Seq<Sphere>, j: int, x0: int, x: int)
    requires
        x0 <= x,
    ensures
        line_count(cam.row_text(objs, j, x0, x)) == x - x0,
    decreases x - x0,
{
    if x > x0 {
        lemma_row_lines(cam, objs, j, x0, x - 1);
        lemma_pixel_lines(cam.pixel_bytes(objs, x - 1, j, crate::camera::centre()));
        lemma_line_count_add(
            cam.row_text(objs, j, x0, x - 1),
            pixel_line(cam.pixel_bytes(objs, x - 1, j, crate::camera::centre())),
        );
    } else {
        assert(cam.row_text(objs, j, x0, x) =~= Seq::<u8>::empty());
        assert(line_count(Seq::<u8>::empty()) == 0);
    }
}

proof fn lemma_band_lines(cam: Camera, objs: Seq<Sphere>, x0: int, x1: int, y0: int, y: int)
    requires
        x0 <= x1,
        y0 <= y,
    ensures
        line_count(cam.band_text(objs, x0, x1, y0, y)) == (y - y0) * (x1 - x0),
    decreases y - y0,
{
    if y > y0 {
        lemma_band_lines(cam, objs, x0, x1, y0, y - 1);
        lemma_row_lines(cam, objs, y - 1, x0, x1);
        lemma_line_count_add(
            cam.band_text(objs, x0, x1, y0, y - 1),
            cam.row_text(objs, y - 1, x0, x1),
        );
        assert((y - 1 - y0) * (x1 - x0) + (x1 - x0) == (y - y0) * (x1 - x0)) by (nonlinear_arith);
    } else {
        assert(cam.band_text(objs, x0, x1, y0, y) =~= Seq::<u8>::empty());
        assert(line_count(Seq::<u8>::empty()) == 0);
        assert((y - y0) * (x1 - x0) == 0) by (nonlinear_arith)
            requires
                y == y0,
        ;
    }
}

/// The text of an image is its three header lines followed by one line for
/// each of its `width * height` pixels.
pub proof fn lemma_image_lines(cam: Camera, objs: Seq<Sphere>)
    requires
        0 <= cam.image_width,
        0 <= cam.image_height,
    ensures
        line_count(
            header(cam.image_width as nat, cam.image_height as nat) + cam.band_text(
                objs,
                0,
                cam.image_width as int,
                0,
                cam.image_height as int,
            ),
        ) == 3 + cam.image_width * cam.image_height,
{
    let w = cam.image_width as int;
    let h = cam.image_height as int;
    lemma_header_lines(w as nat, h as nat);
    lemma_band_lines(cam, objs, 0, w, 0, h);
    lemma_line_count_add(header(w as nat, h as nat), cam.band_text(objs, 0, w, 0, h));
    assert(h * w == w * h) by (nonlinear_arith);
}

proof fn lemma_row_order_len(j: int, x0: int, x: int)
    requires
        x0 <= x,
    ensures
        row_order(j, x0, x).len() == x - x0,
    decreases x - x0,
{
    if x > x0 {
        lemma_row_order_len(j, x0, x - 1);
    }
}

proof fn lemma_pixel_order_len(x0: int, x1: int, y0: int, y: int)
    requires
        x0 <= x1,
        y0 <= y,
    ensures
        pixel_order(x0, x1, y0, y).len() == (y - y0) * (x1 - x0),
    decreases y - y0,
{
    if y > y0 {
        lemma_pixel_order_len(x0, x1, y0, y - 1);
        lemma_row_order_len(y - 1, x0, x1);
        assert((y - 1 - y0) * (x1 - x0) + (x1 - x0) == (y - y0) * (x1 - x0)) by (nonlinear_arith);
    } else {
        assert((y - y0) * (x1 - x0) == 0) by (nonlinear_arith)
            requires
                y == y0,
        ;
    }
}

proof fn lemma_drawn_lines(cam: Camera, objs: Seq<Sphere>, drawn: Seq<(int, int, Seq<Vec3>)>)
    ensures
        line_count(cam.drawn_text(objs, drawn)) == drawn.len(),
    decreases drawn.len(),
{
    if drawn.len() > 0 {
        let e = drawn.last();
        lemma_drawn_lines(cam, objs, drawn.drop_last());
        lemma_pixel_lines(cam.pixel_bytes(objs, e.0, e.1, e.2));
        lemma_line_count_add(
            cam.drawn_text(objs, drawn.drop_last()),
            pixel_line(cam.pixel_bytes(objs, e.0, e.1, e.2)),
        );
    } else {
        assert(cam.drawn_text(objs, drawn) =~= Seq::<u8>::empty());
        assert(line_count(Seq::<u8>::empty()) == 0);
    }
}

/// The text of a block of pixels, however many samples each got, holds one
/// line for each of its `(y1 - y0) * (x1 - x0)` pixels.
pub proof fn lemma_chunk_lines(
    cam: Camera,
    objs: Seq<Sphere>,
    drawn: Seq<(int, int, Seq<Vec3>)>,
    x0: int,
    x1: int,
    y0: int,
    y1: int,
)
    requires
        x0 <= x1,
        y0 <= y1,
        drawn_pixels(drawn) == pixel_order(x0, x1, y0, y1),
    ensures
        line_count(cam.drawn_text(objs, drawn)) == (y1 - y0) * (x1 - x0),
{
    lemma_pixel_order_len(x0, x1, y0, y1);
    lemma_drawn_lines(cam, objs, drawn);
    assert(drawn_pixels(drawn).len() == drawn.len());
}

/// The text of an image sampled any number of times per pixel is its three
/// header lines followed by one line for each of its `width * height` pixels.
pub proof fn lemma_sampled_image_lines(cam: Camera, objs: Seq<Sphere>, drawn: Seq<(int, int, Seq<Vec3>)>)
    requires
        0 <= cam.image_width,
        0 <= cam.image_height,
        drawn_pixels(drawn) == pixel_order(0, cam.image_width as int, 0, cam.image_height as int),
    ensures
        line_count(header(cam.image_width as nat, cam.image_height as nat) + cam.drawn_text(objs, drawn))
            == 3 + cam.image_width * cam.image_height,
{
    let w = cam.image_width as int;
    let h = cam.image_height as int;
    lemma_header_lines(w as nat, h as nat);
    lemma_chunk_lines(cam, objs, drawn, 0, w, 0, h);
    lemma_line_count_add(header(w as nat, h as nat), cam.drawn_text(objs, drawn));
    assert(h * w == w * h) by (nonlinear_arith);
}

/// The text of a whole image: its header lines, then the pixel lines.
pub fn image_text(width: u32, height: u32, body: Vec<u8>) -> (r: Vec<u8>)
    ensures
        r@ == header(width as nat, height as nat) + body@,
{
    let mut out: Vec<u8> = Vec::new();
    push_header(&mut out, width, height);
    let mut body = body;
    out.append(&mut body);
    out
}

} // verus!
