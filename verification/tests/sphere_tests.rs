use raytracer::fixed::Fixed;
use raytracer::hittable::{HitRecord, Hittable};
use raytracer::hittable_list::HittableList;
use raytracer::material::{Dielectric, Lambertian, Material, Metal};
use raytracer::ray::Ray;
use raytracer::sphere::Sphere;
use raytracer::vec3::{dot, Vec3};

fn num(x: f64) -> Fixed {
    Fixed::from_raw((x * 16777216.0).round() as i64)
}

fn vec(x: f64, y: f64, z: f64) -> Vec3 {
    Vec3(num(x), num(y), num(z))
}

fn grey() -> Material {
    Material::Lambertian(Lambertian { albedo: vec(0.5, 0.5, 0.5) })
}

fn steel() -> Material {
    Material::Metal(Metal { albedo: vec(0.7, 0.6, 0.5), fuzz: num(0.0) })
}

fn glass() -> Material {
    Material::Dielectric(Dielectric { ir: num(1.5) })
}

fn ball(z: f64, radius: f64, material: Material) -> Sphere {
    Sphere { center: vec(0.0, 0.0, z), radius: num(radius), material }
}

fn forward() -> Ray {
    Ray { origin: vec(0.0, 0.0, 0.0), direction: vec(0.0, 0.0, -1.0) }
}

#[test]
fn roots_of_a_centred_ray_are_entry_and_exit() {
    let s = ball(-5.0, 1.0, grey());
    assert_eq!(s.roots(&forward()), Some((num(4.0), num(6.0))));
}

#[test]
fn roots_are_missing_when_the_line_passes_by() {
    let s = ball(-5.0, 1.0, grey());
    let r = Ray { origin: vec(0.0, 2.0, 0.0), direction: vec(0.0, 0.0, -1.0) };
    assert_eq!(s.roots(&r), None);
}

#[test]
fn ray_from_outside_reports_the_near_root() {
    let s = ball(-5.0, 1.0, grey());
    let rec = s.hit(&forward(), num(0.001), Fixed::max_value()).unwrap();
    assert_eq!(rec.t, num(4.0));
    assert_eq!(rec.p, vec(0.0, 0.0, -4.0));
    assert_eq!(rec.normal, vec(0.0, 0.0, 1.0));
    assert!(rec.front_face);
    assert_eq!(rec.material, grey());
}

#[test]
fn ray_from_inside_reports_only_the_far_root() {
    let s = ball(0.0, 2.0, glass());
    let rec = s.hit(&forward(), num(0.001), Fixed::max_value()).unwrap();
    assert_eq!(rec.t, num(2.0));
    assert_eq!(rec.p, vec(0.0, 0.0, -2.0));
    assert_eq!(rec.normal, vec(0.0, 0.0, 1.0));
    assert!(!rec.front_face);
    assert_eq!(rec.material, glass());
}

#[test]
fn rays_from_inside_never_report_the_near_root() {
    let s = Sphere { center: vec(0.2, -0.1, 0.3), radius: num(2.0), material: glass() };
    let directions = [vec(1.0, 0.0, 0.0), vec(-1.0, 2.0, 0.5), vec(0.3, 0.3, -3.0), vec(0.0, -1.0, 1.0)];
    for d in directions {
        let r = Ray { origin: vec(0.0, 0.5, -0.5), direction: d };
        let (near, far) = s.roots(&r).unwrap();
        assert!(near.raw < num(0.001).raw);
        let rec = s.hit(&r, num(0.001), Fixed::max_value()).unwrap();
        assert_eq!(rec.t, far);
        assert!(!rec.front_face);
    }
}

#[test]
fn rays_from_outside_towards_the_sphere_report_the_near_root() {
    let s = Sphere { center: vec(0.2, -0.1, -6.0), radius: num(2.0), material: glass() };
    let directions = [vec(0.0, 0.0, -1.0), vec(0.2, -0.1, -3.0), vec(0.5, 0.0, -2.0)];
    for d in directions {
        let r = Ray { origin: vec(0.0, 0.5, -0.5), direction: d };
        let (near, far) = s.roots(&r).unwrap();
        assert!(0 <= near.raw && near.raw <= far.raw);
        let rec = s.hit(&r, num(0.001), Fixed::max_value()).unwrap();
        assert_eq!(rec.t, near);
        assert!(rec.front_face);
    }
}

#[test]
fn a_tiny_sphere_is_hit_on_its_surface() {
    // radius 5000 raw units, about 0.0003
    let s = Sphere { center: vec(0.0, 0.0, -1.0), radius: Fixed::from_raw(5000), material: grey() };
    let rec = s.hit(&forward(), num(0.001), Fixed::max_value()).unwrap();
    assert_eq!(rec.t.raw, 16_777_216 - 5000);
    assert_eq!(rec.p, Vec3(num(0.0), num(0.0), Fixed::from_raw(5000 - 16_777_216)));
    assert_eq!(rec.normal, vec(0.0, 0.0, 1.0));
    assert!(rec.front_face);
}

#[test]
fn normals_of_small_and_large_spheres_are_nearly_unit() {
    let rays = [
        Ray { origin: vec(0.0, 0.0, 0.0), direction: vec(0.001, 0.002, -1.0) },
        Ray { origin: vec(0.3, -0.2, 5.0), direction: vec(-0.02, 0.015, -0.4) },
        Ray { origin: vec(-1.0, 0.5, 2.0), direction: vec(2.0, -1.0, -6.0) },
    ];
    for radius in [0.01, 0.25, 3.0, 1000.0] {
        let s = Sphere { center: vec(0.0, 0.0, -1.0 - radius), radius: num(radius), material: grey() };
        for r in rays {
            if let Some(rec) = s.hit(&r, num(0.001), Fixed::max_value()) {
                let length = rec.normal.length().raw as f64 / 16_777_216.0;
                assert!((length - 1.0).abs() < 1e-4);
            }
        }
    }
    let s = Sphere { center: vec(0.0, 0.0, -2.0), radius: num(0.01), material: grey() };
    let rec = s.hit(&forward(), num(0.001), Fixed::max_value()).unwrap();
    assert_eq!(rec.normal, vec(0.0, 0.0, 1.0));
}

#[test]
fn normal_length_is_within_the_bound_for_its_radius() {
    // for a direction of length between 1 / j and k and a radius of r raw
    // units, (m - 1) r <= k + 3 + j^2 and (1 - m) r <= k + 3 + j^2 + 4 r, in
    // units of 2^-24
    let one: i128 = 16_777_216;
    let cases = [
        (Fixed::from_raw(5000), vec(0.0, 0.3, -1.0), 2, 1),
        (Fixed::from_raw(72), vec(0.0, 0.0, -1.0), 2, 1),
        (num(0.5), vec(0.1, -0.2, -1.0), 2, 1),
        (num(0.5), vec(1.0, -2.0, -10.0), 11, 1),
        (num(40.0), vec(0.3, 0.2, -1.0), 2, 1),
        (num(0.5), vec(0.1, -0.2, 0.2), 1, 4),
        (num(0.5), vec(0.01, 0.002, -0.03), 1, 32),
    ];
    for (radius, direction, k, j) in cases {
        let s = Sphere { center: vec(0.0, 0.0, -50.0), radius, material: grey() };
        let r = Ray { origin: s.center - direction * num(3.0), direction };
        let a = direction.length().raw as i128;
        assert!(one <= a * j && a <= k * one);
        let reach = k + 3 + j * j;
        assert!(radius.raw as i128 >= 2 * reach * reach);
        let rec = s.hit(&r, num(0.001), num(1000.0)).unwrap();
        let m = rec.normal.length().raw as i128;
        let rr = radius.raw as i128;
        assert!((m - one) * rr <= reach * one);
        assert!((one - m) * rr <= reach * one + 4 * rr);
    }
}

#[test]
fn aimed_rays_from_outside_meet_the_front() {
    let s = Sphere { center: vec(1.0, -2.0, -7.0), radius: num(0.75), material: grey() };
    let origins = [vec(0.0, 0.0, 0.0), vec(5.0, -2.0, -7.0), vec(1.0, 8.0, -3.0)];
    for origin in origins {
        // the direction is an exact multiple of the line to the centre
        let direction = (s.center - origin) * num(0.5);
        let r = Ray { origin, direction };
        let (near, far) = s.roots(&r).unwrap();
        assert!(0 <= near.raw && near.raw <= far.raw);
        let rec = s.hit(&r, num(0.001), Fixed::max_value()).unwrap();
        assert_eq!(rec.t, near);
        assert!(rec.front_face);
    }
}

#[test]
fn far_root_is_taken_when_the_near_one_is_below_the_interval() {
    let s = ball(-5.0, 1.0, grey());
    let rec = s.hit(&forward(), num(4.5), num(10.0)).unwrap();
    assert_eq!(rec.t, num(6.0));
    assert!(!rec.front_face);
    assert_eq!(rec.normal, vec(0.0, 0.0, 1.0));
}

#[test]
fn roots_outside_the_interval_are_a_miss() {
    let s = ball(-5.0, 1.0, grey());
    assert_eq!(s.hit(&forward(), num(0.001), num(3.5)), None);
    assert_eq!(s.hit(&forward(), num(4.5), num(5.5)), None);
    assert_eq!(s.hit(&forward(), num(6.5), Fixed::max_value()), None);
}

#[test]
fn interval_ends_are_included() {
    let s = ball(-5.0, 1.0, grey());
    assert_eq!(s.hit(&forward(), num(4.0), num(4.0)).unwrap().t, num(4.0));
    assert_eq!(s.hit(&forward(), num(6.0), num(6.0)).unwrap().t, num(6.0));
}

#[test]
fn sphere_behind_the_ray_is_missed() {
    let s = ball(5.0, 1.0, grey());
    assert_eq!(s.roots(&forward()), Some((num(-6.0), num(-4.0))));
    assert_eq!(s.hit(&forward(), num(0.001), Fixed::max_value()), None);
}

#[test]
fn direction_need_not_have_unit_length() {
    let s = ball(-5.0, 1.0, grey());
    let r = Ray { origin: vec(0.0, 0.0, 0.0), direction: vec(0.0, 0.0, -2.0) };
    let rec = s.hit(&r, num(0.001), Fixed::max_value()).unwrap();
    assert_eq!(rec.t, num(2.0));
    assert_eq!(rec.p, vec(0.0, 0.0, -4.0));
}

#[test]
fn a_ray_without_direction_hits_nothing_ahead() {
    let s = ball(-5.0, 1.0, grey());
    let r = Ray { origin: vec(0.0, 0.0, 0.0), direction: vec(0.0, 0.0, 0.0) };
    assert_eq!(s.hit(&r, num(0.001), Fixed::max_value()), None);
}

#[test]
fn normal_opposes_the_ray_on_oblique_hits() {
    let s = Sphere { center: vec(0.3, -0.2, -3.0), radius: num(1.25), material: steel() };
    let rays = [
        Ray { origin: vec(0.0, 0.0, 0.0), direction: vec(0.1, 0.05, -1.0) },
        Ray { origin: vec(0.3, -0.2, -3.0), direction: vec(0.4, 0.3, 0.2) },
        Ray { origin: vec(2.0, 1.0, -6.0), direction: vec(-0.5, -0.4, 1.0) },
    ];
    for r in rays {
        let rec = s.hit(&r, num(0.001), Fixed::max_value()).unwrap();
        assert!(dot(r.direction, rec.normal).raw <= 0);
        assert_eq!(rec.p, r.at_t(rec.t));
        assert!(num(0.001).raw <= rec.t.raw);
    }
}

#[test]
fn set_face_normal_keeps_or_turns_the_normal() {
    let mut rec = HitRecord {
        p: vec(1.0, 2.0, 3.0),
        normal: vec(0.0, 0.0, 0.0),
        t: num(7.0),
        front_face: false,
        material: steel(),
    };
    rec.set_face_normal(&forward(), vec(0.0, 0.0, 1.0));
    assert!(rec.front_face);
    assert_eq!(rec.normal, vec(0.0, 0.0, 1.0));
    rec.set_face_normal(&forward(), vec(0.0, 0.0, -1.0));
    assert!(!rec.front_face);
    assert_eq!(rec.normal, vec(0.0, 0.0, 1.0));
    rec.set_face_normal(&forward(), vec(1.0, 0.0, 0.0));
    assert!(!rec.front_face);
    assert_eq!(rec.normal, vec(-1.0, 0.0, 0.0));
    assert_eq!(rec.p, vec(1.0, 2.0, 3.0));
    assert_eq!(rec.t, num(7.0));
    assert_eq!(rec.material, steel());
}

#[test]
fn empty_scene_is_never_hit() {
    let world: HittableList<Sphere> = HittableList::new();
    assert_eq!(world.hittables.len(), 0);
    assert_eq!(world.hit(&forward(), num(0.001), Fixed::max_value()), None);
}

#[test]
fn add_appends_in_order() {
    let mut world = HittableList::new();
    world.add(ball(-5.0, 1.0, grey()));
    world.add(ball(-9.0, 1.0, steel()));
    assert_eq!(world.hittables.len(), 2);
    assert_eq!(world.hittables[0].material, grey());
    assert_eq!(world.hittables[1].material, steel());
}

#[test]
fn scene_reports_the_nearer_of_two_spheres() {
    let mut world = HittableList::new();
    world.add(ball(-9.0, 1.0, steel()));
    world.add(ball(-5.0, 1.0, grey()));
    let rec = world.hit(&forward(), num(0.001), Fixed::max_value()).unwrap();
    assert_eq!(rec.material, grey());
    assert_eq!(rec.t, num(4.0));

    let mut swapped = HittableList::new();
    swapped.add(ball(-5.0, 1.0, grey()));
    swapped.add(ball(-9.0, 1.0, steel()));
    assert_eq!(swapped.hit(&forward(), num(0.001), Fixed::max_value()), Some(rec));
}

#[test]
fn scene_reports_the_nearer_of_overlapping_spheres() {
    let mut world = HittableList::new();
    world.add(ball(-5.0, 2.0, steel()));
    world.add(ball(-4.0, 1.5, glass()));
    world.add(ball(-6.0, 3.0, grey()));
    let rec = world.hit(&forward(), num(0.001), Fixed::max_value()).unwrap();
    assert_eq!(rec.t, num(2.5));
    assert_eq!(rec.material, glass());
}

#[test]
fn scene_hit_equals_the_best_single_hit() {
    let spheres = [
        Sphere { center: vec(0.5, 0.0, -4.0), radius: num(1.0), material: grey() },
        Sphere { center: vec(-0.5, 0.2, -3.0), radius: num(0.75), material: steel() },
        Sphere { center: vec(0.0, -0.4, -8.0), radius: num(2.0), material: glass() },
    ];
    let mut world = HittableList::new();
    let mut best: Option<HitRecord> = None;
    for s in spheres {
        if let Some(rec) = s.hit(&forward(), num(0.001), num(100.0)) {
            if best.map_or(true, |b| rec.t.raw <= b.t.raw) {
                best = Some(rec);
            }
        }
        world.add(s);
    }
    assert!(best.is_some());
    assert_eq!(world.hit(&forward(), num(0.001), num(100.0)), best);
}

#[test]
fn equally_near_hits_go_to_the_later_surface() {
    let mut world = HittableList::new();
    world.add(ball(-5.0, 1.0, grey()));
    world.add(ball(-5.0, 1.0, steel()));
    let rec = world.hit(&forward(), num(0.001), Fixed::max_value()).unwrap();
    assert_eq!(rec.material, steel());
}

#[test]
fn scene_respects_the_interval() {
    let mut world = HittableList::new();
    world.add(ball(-5.0, 1.0, grey()));
    world.add(ball(-9.0, 1.0, steel()));
    assert_eq!(world.hit(&forward(), num(0.001), num(3.0)), None);
    let rec = world.hit(&forward(), num(7.0), Fixed::max_value()).unwrap();
    assert_eq!(rec.t, num(8.0));
    assert_eq!(rec.material, steel());
}

#[test]
fn scenes_nest() {
    let mut near = HittableList::new();
    near.add(ball(-5.0, 1.0, grey()));
    let mut far = HittableList::new();
    far.add(ball(-9.0, 1.0, steel()));
    let mut world = HittableList::new();
    world.add(far);
    world.add(near);
    let rec = world.hit(&forward(), num(0.001), Fixed::max_value()).unwrap();
    assert_eq!(rec.material, grey());
}
