use crate::vec3::{byte_of, clamp_int, Vec3};
use vstd::prelude::*;

verus! {

/// The fixed-point value just under one (0.999) that color components are
/// clamped to before they become bytes.
pub const CLAMP_MAX: i64 = 65470;

/// The decimal digits of `n`, in ASCII, most significant first.
pub open spec fn decimal(n: nat) -> Seq<u8>
    decreases n,
{
    if n < 10 {
        seq![(48 + n) as u8]
    } else {
        decimal(n / 10).push((48 + n % 10) as u8)
    }
}

/// One pixel of the image text: three decimal bytes separated by spaces,
/// ended by a newline.
pub open spec fn pixel_line(c: (u8, u8, u8)) -> Seq<u8> {
    decimal(c.0 as nat) + seq![32u8] + decimal(c.1 as nat) + seq![32u8] + decimal(c.2 as nat)
        + seq![10u8]
}

/// A color component scaled by 255.999 and cut to a byte, without clamping.
pub open spec fn scaled_byte(c: int) -> int {
    byte_of((c * 255999) / 1000)
}

/// A color component clamped to `[0, 0.999]`, scaled by 255.999 and cut to a byte.
pub open spec fn clamped_byte(c: int) -> int {
    scaled_byte(clamp_int(c, 0, CLAMP_MAX as int))
}

/// Appends the decimal digits of `n` to `out`.
pub fn push_decimal(out: &mut Vec<u8>, n: u32)
    ensures
        final(out)@ == old(out)@ + decimal(n as nat),
    decreases n,
{
    if n >= 10 {
        push_decimal(out, n / 10);
    }
    out.push(48 + (n % 10) as u8);
    proof {
        assert(final(out)@ =~= old(out)@ + decimal(n as nat));
    }
}

/// Appends the text line of one pixel to `out`.
pub fn push_pixel(out: &mut Vec<u8>, c: (u8, u8, u8))
    ensures
        final(out)@ == old(out)@ + pixel_line(c),
{
    push_decimal(out, c.0 as u32);
    out.push(32);
    push_decimal(out, c.1 as u32);
    out.push(32);
    push_decimal(out, c.2 as u32);
    out.push(10);
    proof {
        assert(final(out)@ =~= old(out)@ + pixel_line(c));
    }
}

/// The text line of a color whose components lie in `[0, 1]`: each is scaled
/// by 255.999 and cut to a byte, a component above one giving 255.
pub fn write_color(pixel_color: Vec3) -> (r: Vec<u8>)
    requires
        pixel_color.bounded(0x0000_1000_0000_0000),
    ensures
        r@ == pixel_line(
            (
                scaled_byte(pixel_color.x as int) as u8,
                scaled_byte(pixel_color.y as int) as u8,
                scaled_byte(pixel_color.z as int) as u8,
            ),
        ),
{
    let res = pixel_color.mul_div(255999, 1000).rounded();
    let mut out: Vec<u8> = Vec::new();
    push_pixel(&mut out, res);
    out
}

/// The bytes of a color after clamping each component to `[0, 0.999]`.
pub fn clamped_bytes(pixel_color: Vec3) -> (r: (u8, u8, u8))
    ensures
        r == (
            clamped_byte(pixel_color.x as int) as u8,
            clamped_byte(pixel_color.y as int) as u8,
            clamped_byte(pixel_color.z as int) as u8,
        ),
{
    let mut c = pixel_color;
    let clamped = c.clamp(0, CLAMP_MAX);
    clamped.mul_div(255999, 1000).rounded()
}

/// The three header lines of the image text: the format tag, the width and
/// height, and the largest component value.
pub open spec fn header(width: nat, height: nat) -> Seq<u8> {
    seq![80u8, 51u8, 10u8] + decimal(width) + seq![32u8] + decimal(height) + seq![
        10u8,
        50u8,
        53u8,
        53u8,
        10u8,
    ]
}

/// Appends the header lines for an image of the given size.
pub fn push_header(out: &mut Vec<u8>, width: u32, height: u32)
    ensures
        final(out)@ == old(out)@ + header(width as nat, height as nat),
{
    out.push(80);
    out.push(51);
    out.push(10);
    push_decimal(out, width);
    out.push(32);
    push_decimal(out, height);
    out.push(10);
    out.push(50);
    out.push(53);
    out.push(53);
    out.push(10);
    proof {
        assert(final(out)@ =~= old(out)@ + header(width as nat, height as nat));
    }
}

} // verus!
