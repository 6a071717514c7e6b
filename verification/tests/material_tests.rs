use raytracer::fixed::Fixed;
use raytracer::hittable::HitRecord;
use raytracer::material::{Dielectric, Lambertian, Material, Metal, Sample, Scatter};
use raytracer::ray::Ray;
use raytracer::vec3::{dot, reflect, refract, Vec3};

fn num(x: f64) -> Fixed {
    Fixed::from_raw((x * 16777216.0).round() as i64)
}

fn vec(x: f64, y: f64, z: f64) -> Vec3 {
    Vec3(num(x), num(y), num(z))
}

fn as_f64(a: Fixed) -> f64 {
    a.raw as f64 / 16777216.0
}

fn floor_hit(material: Material, front_face: bool) -> HitRecord {
    HitRecord {
        p: vec(1.0, 0.0, 2.0),
        normal: vec(0.0, 1.0, 0.0),
        t: num(3.0),
        front_face,
        material,
    }
}

fn falling() -> Ray {
    Ray { origin: vec(1.0, 3.0, 2.0), direction: vec(0.0, -3.0, 0.0) }
}

fn slanting() -> Ray {
    Ray { origin: vec(0.0, 1.0, 2.0), direction: vec(1.0, -1.0, 0.0) }
}

#[test]
fn lambertian_scatters_along_normal_plus_unit_vector() {
    let m = Lambertian { albedo: vec(0.4, 0.2, 0.1) };
    let rec = floor_hit(Material::Lambertian(m), true);
    let s = m.scatter_with(&rec, vec(0.5, 0.0, 0.0));
    assert_eq!(
        s,
        Scatter {
            attenuation: vec(0.4, 0.2, 0.1),
            scattered: Ray { origin: vec(1.0, 0.0, 2.0), direction: vec(1.0, 1.0, 0.0) },
            continues: true,
        }
    );
}

#[test]
fn lambertian_falls_back_to_the_normal_when_the_sum_cancels() {
    let m = Lambertian { albedo: vec(0.4, 0.2, 0.1) };
    let rec = floor_hit(Material::Lambertian(m), true);
    let s = m.scatter_with(&rec, vec(0.0, -0.25, 0.0));
    assert_eq!(s.scattered.direction, vec(0.0, 1.0, 0.0));
    assert!(s.continues);
}

#[test]
fn lambertian_random_scatter_always_continues_with_albedo() {
    let m = Lambertian { albedo: vec(0.5, 0.5, 0.5) };
    let rec = floor_hit(Material::Lambertian(m), true);
    for _ in 0..100 {
        let s = m.scatter(&falling(), &rec);
        assert!(s.continues);
        assert_eq!(s.attenuation, vec(0.5, 0.5, 0.5));
        assert_eq!(s.scattered.origin, rec.p);
        assert!(!s.scattered.direction.near_zero());
        // no component of a unit vector exceeds one, so the direction leaves the surface
        assert!(dot(s.scattered.direction, rec.normal).raw >= 0);
        assert!(as_f64(s.scattered.direction.length()) <= 2.001);
    }
}

#[test]
fn metal_without_fuzz_mirrors_exactly() {
    let m = Metal { albedo: vec(0.7, 0.6, 0.5), fuzz: num(0.0) };
    let rec = floor_hit(Material::Metal(m), true);
    let expected = Scatter {
        attenuation: vec(0.7, 0.6, 0.5),
        scattered: Ray { origin: vec(1.0, 0.0, 2.0), direction: vec(1.0, 1.0, 0.0) },
        continues: true,
    };
    assert_eq!(m.scatter_with(&slanting(), &rec, vec(0.3, -0.2, 0.9)), expected);
    assert_eq!(m.scatter_with(&slanting(), &rec, vec(0.0, 0.0, 0.0)), expected);
    for _ in 0..100 {
        assert_eq!(m.scatter(&slanting(), &rec), expected);
        assert_eq!(Material::Metal(m).scatter(&slanting(), &rec), expected);
    }
}

#[test]
fn metal_with_fuzz_moves_the_mirror_direction() {
    let m = Metal { albedo: vec(0.7, 0.6, 0.5), fuzz: num(0.5) };
    let rec = floor_hit(Material::Metal(m), true);
    let s = m.scatter_with(&slanting(), &rec, vec(0.5, -0.5, 0.25));
    assert_eq!(s.scattered.direction, vec(1.25, 0.75, 0.125));
    assert!(s.continues);
    assert_eq!(s.attenuation, vec(0.7, 0.6, 0.5));
}

#[test]
fn metal_absorbs_a_ray_pushed_below_the_surface() {
    let m = Metal { albedo: vec(0.7, 0.6, 0.5), fuzz: num(1.0) };
    let rec = floor_hit(Material::Metal(m), true);
    let grazing = Ray { origin: vec(0.0, 1.0, 2.0), direction: vec(1.0, -0.25, 0.0) };
    let s = m.scatter_with(&grazing, &rec, vec(0.0, -0.5, 0.0));
    assert_eq!(s.scattered.direction, vec(1.0, -0.25, 0.0));
    assert!(!s.continues);
    let level = m.scatter_with(&grazing, &rec, vec(0.0, -0.25, 0.0));
    assert_eq!(level.scattered.direction, vec(1.0, 0.0, 0.0));
    assert!(!level.continues);
}

#[test]
fn metal_random_scatter_stays_near_the_mirror_direction() {
    let m = Metal { albedo: vec(0.7, 0.6, 0.5), fuzz: num(0.25) };
    let rec = floor_hit(Material::Metal(m), true);
    let mirror = reflect(slanting().direction, rec.normal);
    for _ in 0..100 {
        let s = m.scatter(&slanting(), &rec);
        let off = s.scattered.direction - mirror;
        assert!(as_f64(off.length()) < 0.25 + 1e-6);
        assert_eq!(s.continues, dot(s.scattered.direction, rec.normal).raw > 0);
    }
}

#[test]
fn reflectance_at_normal_incidence_is_r0() {
    // ((1 - 1.5) / (1 + 1.5))^2 = 0.04
    let r = Dielectric::reflectance(num(1.0), num(1.5));
    assert!((as_f64(r) - 0.04).abs() < 1e-6);
    let q = num(-0.5) / num(2.5);
    assert_eq!(r, q * q);
}

#[test]
fn reflectance_at_grazing_incidence_is_one() {
    let r = Dielectric::reflectance(num(0.0), num(1.5));
    assert!((as_f64(r) - 1.0).abs() < 1e-6);
}

#[test]
fn reflectance_follows_schlick() {
    // r0 + (1 - r0) (1 - cos)^5 with r0 = 1/9 for the ratio 1/2, cos = 1/2
    let r = Dielectric::reflectance(num(0.5), num(0.5));
    let expected = 1.0 / 9.0 + (8.0 / 9.0) / 32.0;
    assert!((as_f64(r) - expected).abs() < 1e-6);
}

#[test]
fn reflectance_with_equal_media_is_the_fifth_power() {
    assert_eq!(Dielectric::reflectance(num(0.5), num(1.0)), num(1.0 / 32.0));
    assert_eq!(Dielectric::reflectance(num(1.0), num(1.0)), num(0.0));
}

#[test]
fn dielectric_refracts_when_the_draw_is_not_below_the_reflectance() {
    let m = Dielectric { ir: num(1.5) };
    let rec = floor_hit(Material::Dielectric(m), true);
    let s = m.scatter_with(&falling(), &rec, num(0.5));
    assert_eq!(s.attenuation, vec(1.0, 1.0, 1.0));
    assert!(s.continues);
    assert_eq!(s.scattered.origin, rec.p);
    assert_eq!(s.scattered.direction, vec(0.0, -1.0, 0.0));
    let ratio = num(1.0) / num(1.5);
    assert_eq!(s.scattered.direction, refract(vec(0.0, -1.0, 0.0), rec.normal, ratio));
}

#[test]
fn dielectric_reflects_when_the_draw_is_below_the_reflectance() {
    let m = Dielectric { ir: num(1.5) };
    let rec = floor_hit(Material::Dielectric(m), true);
    // the reflectance at normal incidence is about 0.04
    let s = m.scatter_with(&falling(), &rec, num(0.03));
    assert_eq!(s.scattered.direction, vec(0.0, 1.0, 0.0));
    let t = m.scatter_with(&falling(), &rec, num(0.05));
    assert_eq!(t.scattered.direction, vec(0.0, -1.0, 0.0));
}

#[test]
fn dielectric_reflects_totally_from_inside_at_a_flat_angle() {
    let m = Dielectric { ir: num(1.5) };
    let rec = floor_hit(Material::Dielectric(m), false);
    // sin is about 0.707, times 1.5 is above one
    let s = m.scatter_with(&slanting(), &rec, num(0.999));
    let unit = slanting().direction.unit_vector();
    assert_eq!(s.scattered.direction, reflect(unit, rec.normal));
    assert!(s.scattered.direction.y().raw > 0);
    assert!(s.continues);
}

#[test]
fn dielectric_uses_the_inverse_index_on_the_front_face() {
    let m = Dielectric { ir: num(1.5) };
    let front = floor_hit(Material::Dielectric(m), true);
    let s = m.scatter_with(&slanting(), &front, num(0.999));
    let unit = slanting().direction.unit_vector();
    assert_eq!(s.scattered.direction, refract(unit, front.normal, num(1.0) / num(1.5)));
    assert!(s.scattered.direction.y().raw < 0);
}

#[test]
fn dielectric_of_index_one_passes_a_head_on_ray_unchanged() {
    let m = Dielectric { ir: num(1.0) };
    for front_face in [true, false] {
        let rec = floor_hit(Material::Dielectric(m), front_face);
        for _ in 0..100 {
            let s = m.scatter(&falling(), &rec);
            assert_eq!(s.scattered.direction, vec(0.0, -1.0, 0.0));
            assert_eq!(s.attenuation, vec(1.0, 1.0, 1.0));
            assert!(s.continues);
        }
    }
}

#[test]
fn dielectric_of_index_one_keeps_a_slanting_direction_within_rounding() {
    let m = Dielectric { ir: num(1.0) };
    let rec = floor_hit(Material::Dielectric(m), true);
    let directions = [vec(1.0, -1.0, 0.0), vec(0.3, -0.1, 0.8), vec(-2.0, -5.0, 1.0), vec(9.0, -0.5, 0.0)];
    for d in directions {
        let ray = Ray { origin: vec(0.0, 1.0, 2.0), direction: d };
        let unit = d.unit_vector();
        let s = m.scatter_with(&ray, &rec, num(0.999));
        let off = s.scattered.direction - unit;
        for c in [off.x(), off.y(), off.z()] {
            assert!(c.raw.abs() <= 45059);
        }
    }
}

#[test]
fn dielectric_of_index_one_still_reflects_on_a_low_draw() {
    let m = Dielectric { ir: num(1.0) };
    let rec = floor_hit(Material::Dielectric(m), true);
    let grazing = Ray { origin: vec(0.0, 1.0, 2.0), direction: vec(1.0, -0.01, 0.0) };
    let s = m.scatter_with(&grazing, &rec, num(0.5));
    assert!(s.scattered.direction.y().raw > 0);
}

#[test]
fn dielectric_sends_a_short_ray_on_with_unit_length() {
    let m = Dielectric { ir: num(1.0) };
    let rec = HitRecord {
        p: vec(0.0, 0.0, 0.0),
        normal: vec(0.0, 0.0, 1.0),
        t: num(1.0),
        front_face: true,
        material: Material::Dielectric(m),
    };
    let short = Ray {
        origin: vec(0.0, 0.0, 1.0),
        direction: Vec3(num(0.0), num(0.0), Fixed::from_raw(-5000)),
    };
    for draw in [0.0, 0.5, 0.999] {
        let s = m.scatter_with(&short, &rec, num(draw));
        assert_eq!(s.scattered.direction, vec(0.0, 0.0, -1.0));
    }
}

#[test]
fn dielectric_sends_every_ray_on_with_unit_length() {
    let normal = vec(0.0, 1.0, 0.0);
    let directions = [
        vec(0.0, -1.0, 0.0),
        vec(1.0, -1.0, 0.0),
        vec(9.0, -0.5, 3.0),
        vec(-0.3, -0.1, 0.8),
        vec(0.02, -0.5, 0.01),
    ];
    for ir in [0.25, 0.7, 1.0, 1.5, 2.4, 4.0] {
        let m = Dielectric { ir: num(ir) };
        for front_face in [true, false] {
            let rec = HitRecord {
                p: vec(1.0, 0.0, 2.0),
                normal,
                t: num(3.0),
                front_face,
                material: Material::Dielectric(m),
            };
            for d in directions {
                let ray = Ray { origin: vec(0.0, 1.0, 2.0), direction: d };
                for draw in [0.0, 0.3, 0.999] {
                    let s = m.scatter_with(&ray, &rec, num(draw));
                    let squared = s.scattered.direction.length_squared().raw;
                    assert!(16_777_216 - 512 <= squared && squared <= 16_777_216 + 2048);
                }
            }
        }
    }
}

#[test]
fn material_dispatches_on_its_variant() {
    let l = Lambertian { albedo: vec(0.4, 0.2, 0.1) };
    let m = Metal { albedo: vec(0.7, 0.6, 0.5), fuzz: num(0.5) };
    let d = Dielectric { ir: num(1.5) };
    let sample = Sample { point: vec(0.5, 0.0, 0.0), draw: num(0.5) };
    let rec = floor_hit(Material::Lambertian(l), true);
    assert_eq!(
        Material::Lambertian(l).scatter_with(&slanting(), &rec, &sample),
        l.scatter_with(&rec, sample.point)
    );
    assert_eq!(
        Material::Metal(m).scatter_with(&slanting(), &rec, &sample),
        m.scatter_with(&slanting(), &rec, sample.point)
    );
    assert_eq!(
        Material::Dielectric(d).scatter_with(&slanting(), &rec, &sample),
        d.scatter_with(&slanting(), &rec, sample.draw)
    );
}

#[test]
fn drawn_samples_are_valid() {
    let materials = [
        Material::Lambertian(Lambertian { albedo: vec(0.4, 0.2, 0.1) }),
        Material::Metal(Metal { albedo: vec(0.7, 0.6, 0.5), fuzz: num(0.5) }),
        Material::Dielectric(Dielectric { ir: num(1.5) }),
    ];
    for m in materials {
        for _ in 0..50 {
            let s = m.draw_sample();
            assert!(s.point.length_squared().raw < 16_777_216);
            assert!(0 <= s.draw.raw && s.draw.raw < 16_777_216);
        }
    }
}

#[test]
fn random_scatter_of_glass_reflects_or_refracts() {
    let m = Dielectric { ir: num(1.5) };
    let rec = floor_hit(Material::Dielectric(m), true);
    let unit = slanting().direction.unit_vector();
    let reflected = reflect(unit, rec.normal);
    let refracted = refract(unit, rec.normal, num(1.0) / num(1.5));
    for _ in 0..100 {
        let s = Material::Dielectric(m).scatter(&slanting(), &rec);
        assert!(s.scattered.direction == reflected || s.scattered.direction == refracted);
    }
}
