//! The intersection capability: hit records, and the trait every shape
//! (and the scene aggregate) implements.

use vstd::prelude::*;
use crate::vec3::{Vec3, bounded};
use crate::ray::{Ray, ray_wf};
use crate::material::{Material, mat_wf};
use crate::fixed::ONE;

verus! {

/// The transient result of one intersection query.
#[derive(Clone, Copy, Debug, PartialEq, Eq, Structural)]
pub struct HitRecord {
    pub t: i64,
    pub p: Vec3,
    pub normal: Vec3,
    pub material: Material,
}

/// A record the renderer can consume: the point within the coordinate
/// range, a normal of roughly unit size, a sound material.
pub open spec fn rec_wf(rec: HitRecord) -> bool {
    &&& bounded(rec.p, 0x2000_0000)
    &&& bounded(rec.normal, 4 * (ONE as int))
    &&& mat_wf(rec.material)
}

impl HitRecord {
    /// A blank record, overwritten by the first accepted hit.
    pub fn new() -> (r: HitRecord)
        ensures
            r.t == 0,
            r.p == (Vec3 { x: 0, y: 0, z: 0 }),
            r.normal == (Vec3 { x: 0, y: 0, z: 0 }),
            r.material == (Material::Lambertian { albedo: Vec3 { x: 0, y: 0, z: 0 } }),
    {
        HitRecord {
            t: 0,
            p: Vec3 { x: 0, y: 0, z: 0 },
            normal: Vec3 { x: 0, y: 0, z: 0 },
            material: Material::Lambertian { albedo: Vec3 { x: 0, y: 0, z: 0 } },
        }
    }
}

/// Anything a ray can hit. `hit_rec` is the mathematical answer of one
/// intersection query; `hit` computes it, filling `rec` exactly on a hit.
pub trait Hitable {
    spec fn wf(&self) -> bool;

    spec fn hit_rec(&self, r: Ray, t_min: i64, t_max: i64) -> Option<HitRecord>;

    fn hit(&self, r: &Ray, t_min: i64, t_max: i64, rec: &mut HitRecord) -> (res: bool)
        requires
            self.wf(),
            ray_wf(*r),
            0 <= t_min < t_max <= 0x4000_0000_0000_0000,
        ensures
            match self.hit_rec(*r, t_min, t_max) {
                Option::Some(h) => {
                    &&& res
                    &&& *final(rec) == h
                    &&& rec_wf(h)
                    &&& t_min < h.t < t_max
                },
                Option::None => !res && *final(rec) == *old(rec),
            };
}

} // verus!
