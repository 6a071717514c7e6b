//! Hit records and the capability of being hit by a ray.

use crate::fixed::{lemma_mul_neg, Fixed, LIMIT_RAW};
use crate::material::Material;
use crate::ray::Ray;
use crate::vec3::{dot, dot_spec, v_neg, Point3, Vec3};
use core::ops::Neg;
use vstd::prelude::*;

verus! {

/// Where and how a ray met a surface.  The normal is stored against the
/// incoming ray; `front_face` tells whether the ray came from outside.
#[derive(Clone, Copy, Debug, PartialEq, Eq, Structural)]
pub struct HitRecord {
    pub p: Point3,
    pub normal: Vec3,
    pub t: Fixed,
    pub front_face: bool,
    pub material: Material,
}

/// The ray meets the surface from the side its outward normal points to.
pub open spec fn front_face_spec(r: Ray, outward_normal: Vec3) -> bool {
    dot_spec(r.direction, outward_normal)@ < 0
}

/// The outward normal, turned round if the ray comes from inside.
pub open spec fn face_normal_spec(r: Ray, outward_normal: Vec3) -> Vec3 {
    if front_face_spec(r, outward_normal) {
        outward_normal
    } else {
        v_neg(outward_normal)
    }
}

/// The hit `h`, kept only if it lies at or before `cut`.
pub open spec fn hit_up_to(h: Option<HitRecord>, cut: Fixed) -> Option<HitRecord> {
    match h {
        Some(rec) => if rec.t@ <= cut@ {
            h
        } else {
            None
        },
        None => None,
    }
}

/// No component of `v` is the one raw value below the symmetric range of
/// results.  Every computed vector, and every vector built from numbers made
/// by `Fixed::from_raw`, is within it.
pub open spec fn within_symmetric_range(v: Vec3) -> bool {
    &&& v.0@ >= -LIMIT_RAW
    &&& v.1@ >= -LIMIT_RAW
    &&& v.2@ >= -LIMIT_RAW
}

/// The stored normal never points along the ray: its product with the ray's
/// direction is not positive.  This holds for every outward normal within
/// the symmetric range, in which all computed values lie.
pub proof fn lemma_face_normal_opposes_ray(r: Ray, outward_normal: Vec3)
    requires
        within_symmetric_range(outward_normal),
    ensures
        dot_spec(r.direction, face_normal_spec(r, outward_normal))@ <= 0,
{
    lemma_mul_neg(r.direction.0, outward_normal.0);
    lemma_mul_neg(r.direction.1, outward_normal.1);
    lemma_mul_neg(r.direction.2, outward_normal.2);
}

impl HitRecord {
    /// Records on which side the ray `r` met the surface and stores the
    /// normal that opposes it.
    pub fn set_face_normal(&mut self, r: &Ray, outward_normal: Vec3)
        ensures
            final(self).front_face == front_face_spec(*r, outward_normal),
            final(self).normal == face_normal_spec(*r, outward_normal),
            final(self).p == old(self).p,
            final(self).t == old(self).t,
            final(self).material == old(self).material,
            within_symmetric_range(outward_normal) ==> dot_spec(r.direction, final(self).normal)@
                <= 0,
    {
        proof {
            if within_symmetric_range(outward_normal) {
                lemma_face_normal_opposes_ray(*r, outward_normal);
            }
        }
        self.front_face = dot(r.direction, outward_normal).raw < 0;
        self.normal = if self.front_face {
            outward_normal
        } else {
            outward_normal.neg()
        };
    }
}

/// A surface that a ray can hit.
pub trait Hittable {
    /// The surface is one that a scene may hold.  A surface that is not,
    /// such as a sphere without a positive radius, is a defect of the scene,
    /// and no ray is tried on it.
    spec fn valid(&self) -> bool;

    /// The hit of the ray `r` at a parameter within `[t_min, t_max]`, if
    /// there is one.
    spec fn hit_spec(&self, r: Ray, t_min: Fixed, t_max: Fixed) -> Option<HitRecord>;

    /// Tries the ray `r` on this surface within `[t_min, t_max]`.
    fn hit(&self, r: &Ray, t_min: Fixed, t_max: Fixed) -> (res: Option<HitRecord>)
        requires
            self.valid(),
        ensures
            res == self.hit_spec(*r, t_min, t_max),
    ;

    /// A hit lies within the interval that was asked for.
    proof fn lemma_hit_in_range(&self, r: Ray, t_min: Fixed, t_max: Fixed)
        ensures
            self.hit_spec(r, t_min, t_max) matches Some(rec) ==> t_min@ <= rec.t@ <= t_max@,
    ;

    /// Lowering the upper limit to `cut` keeps a hit at or before `cut` as it
    /// is and loses any other.
    proof fn lemma_hit_narrowed(&self, r: Ray, t_min: Fixed, cut: Fixed, t_max: Fixed)
        requires
            cut@ <= t_max@,
        ensures
            self.hit_spec(r, t_min, cut) == hit_up_to(self.hit_spec(r, t_min, t_max), cut),
    ;
}

} // verus!
