use crate::vec3::{Vec3, ONE};
use vstd::prelude::*;

verus! {

/// A half-line `origin + t * direction`; the direction need not have length one.
#[derive(Clone, Copy, Debug, PartialEq, Eq, Structural)]
pub struct Ray {
    pub orig: Vec3,
    pub dir: Vec3,
}

/// Largest magnitude of a ray parameter that the intersection code accepts
/// (32768 world units along a direction of length one).
pub const T_MAX: i64 = 2147483648;

impl Ray {
    /// Origin and direction lie within the coordinate range.
    pub open spec fn wf(self) -> bool {
        self.orig.bounded(crate::vec3::COORD_MAX as int) && self.dir.bounded(
            crate::vec3::COORD_MAX as int,
        )
    }

    /// The point at parameter `t` (a fixed-point number), each component rounded down.
    pub open spec fn at_spec(self, t: int) -> Vec3 {
        Vec3 {
            x: (self.orig.x + (self.dir.x * t) / (ONE as int)) as i64,
            y: (self.orig.y + (self.dir.y * t) / (ONE as int)) as i64,
            z: (self.orig.z + (self.dir.z * t) / (ONE as int)) as i64,
        }
    }

    pub fn new(new_o: Vec3, new_d: Vec3) -> (r: Ray)
        ensures
            r.orig == new_o,
            r.dir == new_d,
    {
        Ray { orig: new_o, dir: new_d }
    }

    pub fn origin(&self) -> (r: Vec3)
        ensures
            r == self.orig,
    {
        self.orig
    }

    pub fn direction(&self) -> (r: Vec3)
        ensures
            r == self.dir,
    {
        self.dir
    }

    /// The point at parameter `t`.
    pub fn at(&self, t: i64) -> (r: Vec3)
        requires
            self.orig.bounded(crate::vec3::COORD_MAX as int),
            self.dir.bounded(crate::vec3::COORD_MAX as int),
            -T_MAX <= t <= T_MAX,
        ensures
            r == self.at_spec(t as int),
            r.bounded(0x0800_1000_0000),
    {
        proof {
            lemma_step_bound(self.dir.x as int, t as int);
            lemma_step_bound(self.dir.y as int, t as int);
            lemma_step_bound(self.dir.z as int, t as int);
        }
        let step = self.dir.mul_div(t, ONE);
        self.orig.add(step)
    }
}

/// One step `d * t / ONE` with `|d| <= 2^28` and `|t| <= 2^31` stays within `2^43`.
pub(crate) proof fn lemma_step_bound(d: int, t: int)
    requires
        -268435456 <= d <= 268435456,
        -2147483648 <= t <= 2147483648,
    ensures
        -0x0800_0000_0000 <= (d * t) / 65536 <= 0x0800_0000_0000,
{
    assert(-0x0800_0000_0000 * 65536 <= d * t <= 0x0800_0000_0000 * 65536) by (nonlinear_arith)
        requires
            -268435456 <= d <= 268435456,
            -2147483648 <= t <= 2147483648,
    ;
    vstd::arithmetic::div_mod::lemma_div_is_ordered(-0x0800_0000_0000 * 65536, d * t, 65536);
    vstd::arithmetic::div_mod::lemma_div_is_ordered(d * t, (0x0800_0000_0000 * 65536) as int, 65536);
}

} // verus!
