//! Rays: an origin and a direction, both fixed-point vectors.

use vstd::prelude::*;
use crate::fixed::{tdiv, ONE};
use crate::vec3::{Vec3, bounded, sq_s};

verus! {

#[derive(Clone, Copy, Debug)]
pub struct Ray {
    pub origin: Vec3,
    pub direction: Vec3,
}

/// A ray the tracer works on: both vectors within the coordinate range,
/// and a direction that points somewhere.
pub open spec fn ray_wf(r: Ray) -> bool {
    &&& bounded(r.origin, 0x2000_0000)
    &&& bounded(r.direction, 0x2000_0000)
    &&& sq_s(r.direction) > 0
}

impl Ray {
    pub fn new(a: Vec3, b: Vec3) -> (r: Ray)
        ensures
            r.origin == a,
            r.direction == b,
    {
        Ray { origin: a, direction: b }
    }

    pub fn direction(&self) -> (r: Vec3)
        ensures
            r == self.direction,
    {
        self.direction
    }

    pub fn origin(&self) -> (r: Vec3)
        ensures
            r == self.origin,
    {
        self.origin
    }

    /// The point `origin + t * direction`, componentwise truncated.
    pub fn point_at_parameter(&self, t: i64) -> (r: Vec3)
        requires
            bounded(self.origin, 0x2000_0000),
            bounded(self.direction, 0x2000_0000),
            -0x80_0000_0000 <= t <= 0x80_0000_0000,
        ensures
            r.x == self.origin.x + tdiv(self.direction.x * t, ONE as int),
            r.y == self.origin.y + tdiv(self.direction.y * t, ONE as int),
            r.z == self.origin.z + tdiv(self.direction.z * t, ONE as int),
    {
        let d = self.direction.scale(t);
        proof {
            assert(-0x2000_0000i128 * 0x80_0000_0000i128 <= self.direction.x * t
                <= 0x2000_0000i128 * 0x80_0000_0000i128
                && -0x2000_0000i128 * 0x80_0000_0000i128 <= self.direction.y * t
                <= 0x2000_0000i128 * 0x80_0000_0000i128
                && -0x2000_0000i128 * 0x80_0000_0000i128 <= self.direction.z * t
                <= 0x2000_0000i128 * 0x80_0000_0000i128) by (nonlinear_arith)
                requires
                    -0x2000_0000 <= self.direction.x <= 0x2000_0000,
                    -0x2000_0000 <= self.direction.y <= 0x2000_0000,
                    -0x2000_0000 <= self.direction.z <= 0x2000_0000,
                    -0x80_0000_0000 <= t <= 0x80_0000_0000;
            assert(0x2000_0000i128 * 0x80_0000_0000i128 == 0x10_0000_0000_0000i128
                * (ONE as int)) by (nonlinear_arith)
                requires ONE == 65536;
            crate::fixed::lemma_tdiv_le(self.direction.x * t, ONE as int, 0x10_0000_0000_0000);
            crate::fixed::lemma_tdiv_le(self.direction.y * t, ONE as int, 0x10_0000_0000_0000);
            crate::fixed::lemma_tdiv_le(self.direction.z * t, ONE as int, 0x10_0000_0000_0000);
        }
        self.origin.add(d)
    }
}

} // verus!
