//! The scene aggregate: a linear collection of spheres, scanned whole for
//! the nearest intersection of a ray.
//!
//! The scan keeps a shrinking upper bound: each member is queried with the
//! closest accepted `t` so far as its window, so only a strictly closer hit
//! replaces the record. `list_hit_rec` is that fold, written by recursion
//! on the last member; `lemma_scene_nearest_of_two` shows it returns the
//! smaller of two individual roots.

use vstd::prelude::*;
use crate::ray::{Ray, ray_wf};
use crate::sphere::Sphere;
use crate::hitable::{Hitable, HitRecord, rec_wf};

verus! {

pub struct HitableList {
    pub spheres: Vec<Sphere>,
}

/// The nearest accepted hit of a ray over `spheres`, scanned in order with
/// a shrinking window.
pub open spec fn list_hit_rec(spheres: Seq<Sphere>, r: Ray, t_min: i64, t_max: i64) -> Option<
    HitRecord,
>
    decreases spheres.len(),
{
    if spheres.len() == 0 {
        Option::None
    } else {
        match list_hit_rec(spheres.drop_last(), r, t_min, t_max) {
            Option::Some(h) => match spheres.last().hit_rec(r, t_min, h.t) {
                Option::Some(h2) => Option::Some(h2),
                Option::None => Option::Some(h),
            },
            Option::None => spheres.last().hit_rec(r, t_min, t_max),
        }
    }
}

impl HitableList {
    pub fn new() -> (l: HitableList)
        ensures
            l.spheres@ =~= Seq::<Sphere>::empty(),
            l.wf(),
    {
        HitableList { spheres: Vec::new() }
    }

    pub fn push(&mut self, sphere: Sphere)
        requires
            sphere.wf(),
            old(self).wf(),
        ensures
            final(self).spheres@ =~= old(self).spheres@.push(sphere),
            final(self).wf(),
    {
        self.spheres.push(sphere);
    }

    pub fn len(&self) -> (n: usize)
        ensures
            n == self.spheres@.len(),
    {
        self.spheres.len()
    }
}

impl Hitable for HitableList {
    open spec fn wf(&self) -> bool {
        forall|i: int| 0 <= i < self.spheres@.len() ==> (#[trigger] self.spheres@[i]).wf()
    }

    open spec fn hit_rec(&self, r: Ray, t_min: i64, t_max: i64) -> Option<HitRecord> {
        list_hit_rec(self.spheres@, r, t_min, t_max)
    }

    fn hit(&self, r: &Ray, t_min: i64, t_max: i64, rec: &mut HitRecord) -> (res: bool) {
        let ghost spheres = self.spheres@;
        let mut hit_anything = false;
        let mut closest_so_far: i64 = t_max;
        let mut i: usize = 0;
        while i < self.spheres.len()
            invariant
                self.wf(),
                spheres == self.spheres@,
                ray_wf(*r),
                0 <= t_min < t_max <= 0x4000_0000_0000_0000,
                i <= spheres.len(),
                match list_hit_rec(spheres.take(i as int), *r, t_min, t_max) {
                    Option::Some(h) => {
                        &&& hit_anything
                        &&& *rec == h
                        &&& closest_so_far == h.t
                        &&& rec_wf(h)
                        &&& t_min < h.t < t_max
                    },
                    Option::None => {
                        &&& !hit_anything
                        &&& *rec == *old(rec)
                        &&& closest_so_far == t_max
                    },
                },
            decreases spheres.len() - i,
        {
            let ghost prev = list_hit_rec(spheres.take(i as int), *r, t_min, t_max);
            let sp = &self.spheres[i];
            if sp.hit(r, t_min, closest_so_far, rec) {
                hit_anything = true;
                closest_so_far = rec.t;
            }
            proof {
                assert(spheres.take(i + 1).drop_last() =~= spheres.take(i as int));
                assert(spheres.take(i + 1).last() == spheres[i as int]);
            }
            i = i + 1;
        }
        proof {
            assert(spheres.take(spheres.len() as int) =~= spheres);
        }
        hit_anything
    }
}

/// On a scene of exactly two spheres that a ray both hits, the scan
/// returns the smaller of the two individual roots.
pub proof fn lemma_scene_nearest_of_two(a: Sphere, b: Sphere, r: Ray, t_min: i64, t_max: i64)
    requires
        a.wf(),
        b.wf(),
        ray_wf(r),
        0 <= t_min < t_max <= 0x4000_0000_0000_0000,
        a.hit_rec(r, t_min, t_max) is Some,
        b.hit_rec(r, t_min, t_max) is Some,
    ensures
        ({
            let oa = a.hit_rec(r, t_min, t_max);
            let ob = b.hit_rec(r, t_min, t_max);
            let ol = list_hit_rec(seq![a, b], r, t_min, t_max);
            match (oa, ob, ol) {
                (Option::Some(ha), Option::Some(hb), Option::Some(h)) => h.t == (
                if ha.t <= hb.t {
                    ha.t
                } else {
                    hb.t
                }),
                _ => false,
            }
        }),
{
    let oa = a.hit_rec(r, t_min, t_max);
    let ob = b.hit_rec(r, t_min, t_max);
    let ha = match oa {
        Option::Some(h) => h,
        Option::None => HitRecord { t: 0, p: r.origin, normal: r.origin, material: a.material },
    };
    let hb = match ob {
        Option::Some(h) => h,
        Option::None => HitRecord { t: 0, p: r.origin, normal: r.origin, material: b.material },
    };
    crate::sphere::lemma_sphere_hit_in_window(a, r, t_min, t_max);
    crate::sphere::lemma_sphere_hit_in_window(b, r, t_min, t_max);
    let sab = seq![a, b];
    assert(sab.drop_last() =~= seq![a]);
    assert(sab.last() == b);
    assert(seq![a].drop_last() =~= Seq::<Sphere>::empty());
    assert(seq![a].last() == a);
    assert(list_hit_rec(Seq::<Sphere>::empty(), r, t_min, t_max) is None);
    assert(list_hit_rec(seq![a], r, t_min, t_max) == oa);
    crate::sphere::lemma_sphere_hit_window(b, r, t_min, ha.t, t_max);
    if hb.t < ha.t {
        assert(b.hit_rec(r, t_min, ha.t) == Option::Some(hb));
        assert(list_hit_rec(sab, r, t_min, t_max) == Option::Some(hb));
    } else {
        assert(b.hit_rec(r, t_min, ha.t) is None);
        assert(list_hit_rec(sab, r, t_min, t_max) == Option::Some(ha));
    }
}

/// Over any scene, the scan's hit is the nearest: whenever some member
/// hits a ray on its own, the scene hits it too, and no member's own
/// root is closer than the scene's.
pub proof fn lemma_scene_hit_nearest(spheres: Seq<Sphere>, r: Ray, t_min: i64, t_max: i64)
    requires
        forall|i: int| 0 <= i < spheres.len() ==> (#[trigger] spheres[i]).wf(),
        ray_wf(r),
        0 <= t_min < t_max <= 0x4000_0000_0000_0000,
    ensures
        forall|i: int|
            0 <= i < spheres.len() ==> match (list_hit_rec(spheres, r, t_min, t_max), (
            #[trigger] spheres[i]).hit_rec(r, t_min, t_max)) {
                (Option::Some(h), Option::Some(hi)) => h.t <= hi.t,
                (Option::None, Option::Some(hi)) => false,
                _ => true,
            },
        list_hit_rec(spheres, r, t_min, t_max) matches Option::Some(h) ==> t_min < h.t < t_max,
    decreases spheres.len(),
{
    if spheres.len() == 0 {
        return;
    }
    let prefix = spheres.drop_last();
    let x = spheres.last();
    lemma_scene_hit_nearest(prefix, r, t_min, t_max);
    crate::sphere::lemma_sphere_hit_in_window(x, r, t_min, t_max);
    match list_hit_rec(prefix, r, t_min, t_max) {
        Option::Some(h) => {
            crate::sphere::lemma_sphere_hit_window(x, r, t_min, h.t, t_max);
            crate::sphere::lemma_sphere_hit_in_window(x, r, t_min, h.t);
            assert forall|i: int| 0 <= i < spheres.len() implies match (list_hit_rec(spheres, r,
                t_min, t_max), (#[trigger] spheres[i]).hit_rec(r, t_min, t_max)) {
                (Option::Some(hh), Option::Some(hi)) => hh.t <= hi.t,
                (Option::None, Option::Some(hi)) => false,
                _ => true,
            } by {
                if i < prefix.len() {
                    assert(spheres[i] == prefix[i]);
                }
            }
        },
        Option::None => {
            assert forall|i: int| 0 <= i < spheres.len() implies match (list_hit_rec(spheres, r,
                t_min, t_max), (#[trigger] spheres[i]).hit_rec(r, t_min, t_max)) {
                (Option::Some(hh), Option::Some(hi)) => hh.t <= hi.t,
                (Option::None, Option::Some(hi)) => false,
                _ => true,
            } by {
                if i < prefix.len() {
                    assert(spheres[i] == prefix[i]);
                }
            }
        },
    }
}

} // verus!
