//! A scene: a list of surfaces, hit as one.

use crate::fixed::Fixed;
use crate::hittable::{hit_up_to, HitRecord, Hittable};
use crate::ray::Ray;
use vstd::prelude::*;

verus! {

/// The surfaces of a scene, in the order in which they are tried.
pub struct HittableList<H: Hittable> {
    pub hittables: Vec<H>,
}

/// The upper limit left for the next surface once `best` has been found.
pub open spec fn closest_so_far(best: Option<HitRecord>, t_max: Fixed) -> Fixed {
    match best {
        Some(rec) => rec.t,
        None => t_max,
    }
}

/// The hit kept after the first `n` surfaces of `s` have been tried in turn,
/// each one within `[t_min, closest so far]`.
pub open spec fn nearest_hit<H: Hittable>(
    s: Seq<H>,
    n: int,
    r: Ray,
    t_min: Fixed,
    t_max: Fixed,
) -> Option<HitRecord>
    decreases n,
{
    if n <= 0 {
        None
    } else {
        let before = nearest_hit(s, n - 1, r, t_min, t_max);
        match s[n - 1].hit_spec(r, t_min, closest_so_far(before, t_max)) {
            Some(rec) => Some(rec),
            None => before,
        }
    }
}

impl<H: Hittable> HittableList<H> {
    /// The empty scene.
    pub fn new() -> (list: Self)
        ensures
            list.hittables@.len() == 0,
    {
        HittableList { hittables: Vec::new() }
    }

    /// Appends a surface to the scene.
    pub fn add(&mut self, item: H)
        ensures
            final(self).hittables@ == old(self).hittables@.push(item),
    {
        self.hittables.push(item);
    }
}

impl<H: Hittable> Hittable for HittableList<H> {
    /// A scene is valid where each of its surfaces is.
    open spec fn valid(&self) -> bool {
        forall|i: int| 0 <= i < self.hittables@.len() ==> (#[trigger] self.hittables@[i]).valid()
    }

    open spec fn hit_spec(&self, r: Ray, t_min: Fixed, t_max: Fixed) -> Option<HitRecord> {
        nearest_hit(self.hittables@, self.hittables@.len() as int, r, t_min, t_max)
    }

    fn hit(&self, r: &Ray, t_min: Fixed, t_max: Fixed) -> (res: Option<HitRecord>) {
        let mut best: Option<HitRecord> = None;
        let mut closest = t_max;
        let mut i: usize = 0;
        while i < self.hittables.len()
            invariant
                self.valid(),
                i <= self.hittables.len(),
                best == nearest_hit(self.hittables@, i as int, *r, t_min, t_max),
                closest == closest_so_far(best, t_max),
            decreases self.hittables.len() - i,
        {
            match self.hittables[i].hit(r, t_min, closest) {
                Some(rec) => {
                    closest = rec.t;
                    best = Some(rec);
                },
                None => {},
            }
            i = i + 1;
        }
        best
    }

    proof fn lemma_hit_in_range(&self, r: Ray, t_min: Fixed, t_max: Fixed) {
        lemma_nearest_in_range(self.hittables@, self.hittables@.len() as int, r, t_min, t_max);
    }

    proof fn lemma_hit_narrowed(&self, r: Ray, t_min: Fixed, cut: Fixed, t_max: Fixed) {
        lemma_nearest_narrowed(
            self.hittables@,
            self.hittables@.len() as int,
            r,
            t_min,
            cut,
            t_max,
        );
    }
}

/// The hit kept lies within the interval that was asked for.
pub proof fn lemma_nearest_in_range<H: Hittable>(
    s: Seq<H>,
    n: int,
    r: Ray,
    t_min: Fixed,
    t_max: Fixed,
)
    requires
        n <= s.len(),
    ensures
        nearest_hit(s, n, r, t_min, t_max) matches Some(rec) ==> t_min@ <= rec.t@ <= t_max@,
    decreases n,
{
    if n > 0 {
        lemma_nearest_in_range(s, n - 1, r, t_min, t_max);
        let before = nearest_hit(s, n - 1, r, t_min, t_max);
        s[n - 1].lemma_hit_in_range(r, t_min, closest_so_far(before, t_max));
    }
}

/// Lowering the upper limit to `cut` keeps the scene's hit if it lies at or
/// before `cut` and loses it otherwise.
pub proof fn lemma_nearest_narrowed<H: Hittable>(
    s: Seq<H>,
    n: int,
    r: Ray,
    t_min: Fixed,
    cut: Fixed,
    t_max: Fixed,
)
    requires
        n <= s.len(),
        cut@ <= t_max@,
    ensures
        nearest_hit(s, n, r, t_min, cut) == hit_up_to(nearest_hit(s, n, r, t_min, t_max), cut),
    decreases n,
{
    if n > 0 {
        lemma_nearest_narrowed(s, n - 1, r, t_min, cut, t_max);
        lemma_nearest_in_range(s, n - 1, r, t_min, t_max);
        let wide = nearest_hit(s, n - 1, r, t_min, t_max);
        let limit = closest_so_far(wide, t_max);
        s[n - 1].lemma_hit_in_range(r, t_min, limit);
        if limit@ > cut@ {
            s[n - 1].lemma_hit_narrowed(r, t_min, cut, limit);
        }
    }
}

/// The scene's hit is at least as near as the hit of any of its surfaces.
pub proof fn lemma_nearest_is_nearest<H: Hittable>(
    s: Seq<H>,
    n: int,
    r: Ray,
    t_min: Fixed,
    t_max: Fixed,
    i: int,
)
    requires
        0 <= i < n <= s.len(),
    ensures
        s[i].hit_spec(r, t_min, t_max) matches Some(rec) ==> (nearest_hit(s, n, r, t_min, t_max)
            matches Some(best) && best.t@ <= rec.t@),
    decreases n,
{
    let before = nearest_hit(s, n - 1, r, t_min, t_max);
    let limit = closest_so_far(before, t_max);
    lemma_nearest_in_range(s, n - 1, r, t_min, t_max);
    s[n - 1].lemma_hit_in_range(r, t_min, limit);
    s[n - 1].lemma_hit_in_range(r, t_min, t_max);
    s[n - 1].lemma_hit_narrowed(r, t_min, limit, t_max);
    if i < n - 1 {
        lemma_nearest_is_nearest(s, n - 1, r, t_min, t_max, i);
    }
}

/// The scene's hit is the hit of one of its surfaces.
pub proof fn lemma_nearest_is_of_member<H: Hittable>(
    s: Seq<H>,
    n: int,
    r: Ray,
    t_min: Fixed,
    t_max: Fixed,
) -> (i: int)
    requires
        n <= s.len(),
        nearest_hit(s, n, r, t_min, t_max) is Some,
    ensures
        0 <= i < n,
        s[i].hit_spec(r, t_min, t_max) == nearest_hit(s, n, r, t_min, t_max),
    decreases n,
{
    let before = nearest_hit(s, n - 1, r, t_min, t_max);
    let limit = closest_so_far(before, t_max);
    lemma_nearest_in_range(s, n - 1, r, t_min, t_max);
    s[n - 1].lemma_hit_narrowed(r, t_min, limit, t_max);
    if s[n - 1].hit_spec(r, t_min, limit) is Some {
        n - 1
    } else {
        lemma_nearest_is_of_member(s, n - 1, r, t_min, t_max)
    }
}

} // verus!
