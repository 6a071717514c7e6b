use raytracer::fixed::Fixed;
use raytracer::hittable::Hittable;
use raytracer::hittable_list::HittableList;
use raytracer::material::{Dielectric, Lambertian, Material, Metal, Sample};
use raytracer::ray::Ray;
use raytracer::sphere::Sphere;
use raytracer::tracer::{background, ray_color, ray_color_with};
use raytracer::vec3::Vec3;

fn num(x: f64) -> Fixed {
    Fixed::from_raw((x * 16777216.0).round() as i64)
}

fn vec(x: f64, y: f64, z: f64) -> Vec3 {
    Vec3(num(x), num(y), num(z))
}

fn as_f64(a: Fixed) -> f64 {
    a.raw as f64 / 16777216.0
}

fn black() -> Vec3 {
    vec(0.0, 0.0, 0.0)
}

fn sky() -> Vec3 {
    Vec3(Fixed::from_ratio(1, 2), Fixed::from_ratio(7, 10), num(1.0))
}

fn grey() -> Material {
    Material::Lambertian(Lambertian { albedo: vec(0.5, 0.5, 0.5) })
}

fn world_of(spheres: Vec<Sphere>) -> HittableList<Sphere> {
    let mut world = HittableList::new();
    for s in spheres {
        world.add(s);
    }
    world
}

fn ball(z: f64, radius: f64, material: Material) -> Sphere {
    Sphere { center: vec(0.0, 0.0, z), radius: num(radius), material }
}

fn forward() -> Ray {
    Ray { origin: vec(0.0, 0.0, 0.0), direction: vec(0.0, 0.0, -1.0) }
}

fn up() -> Ray {
    Ray { origin: vec(0.0, 0.0, 0.0), direction: vec(0.0, 2.0, 0.0) }
}

#[test]
fn spent_depth_is_black() {
    let world = world_of(vec![ball(-2.0, 1.0, grey())]);
    let empty = world_of(vec![]);
    for depth in [0, -1, i32::MIN] {
        assert_eq!(ray_color(forward(), &world, depth), black());
        assert_eq!(ray_color(up(), &world, depth), black());
        assert_eq!(ray_color(up(), &empty, depth), black());
        assert_eq!(ray_color_with(forward(), &world, depth, &vec![]), black());
    }
}

#[test]
fn background_blends_white_into_sky_blue() {
    // straight up: weight one
    assert_eq!(background(&up()), sky());
    // straight down: weight zero
    let down = Ray { origin: vec(0.0, 0.0, 0.0), direction: vec(0.0, -3.0, 0.0) };
    assert_eq!(background(&down), vec(1.0, 1.0, 1.0));
    // level: weight one half
    let half = num(0.5);
    assert_eq!(
        background(&forward()),
        Vec3(half + half * sky().x(), half + half * sky().y(), num(1.0))
    );
}

#[test]
fn background_matches_the_closed_form() {
    let directions = [vec(1.0, 2.0, 3.0), vec(-0.3, -0.9, 0.2), vec(5.0, 0.1, -7.0)];
    for d in directions {
        let c = background(&Ray { origin: vec(9.0, 9.0, 9.0), direction: d });
        let (x, y, z) = (as_f64(d.x()), as_f64(d.y()), as_f64(d.z()));
        let t = 0.5 * (y / (x * x + y * y + z * z).sqrt() + 1.0);
        assert!((as_f64(c.x()) - ((1.0 - t) + t * 0.5)).abs() < 1e-6);
        assert!((as_f64(c.y()) - ((1.0 - t) + t * 0.7)).abs() < 1e-6);
        assert!((as_f64(c.z()) - 1.0).abs() < 1e-6);
    }
}

#[test]
fn background_of_a_short_direction_is_on_the_gradient() {
    let short = Ray {
        origin: vec(0.0, 0.0, 0.0),
        direction: Vec3(num(0.0), Fixed::from_raw(5000), num(0.0)),
    };
    assert_eq!(background(&short), sky());
    let empty = world_of(vec![]);
    assert_eq!(ray_color(short, &empty, 3), sky());
    let directions = [
        Vec3(Fixed::from_raw(3), Fixed::from_raw(-7), Fixed::from_raw(1)),
        Vec3(Fixed::from_raw(-900), Fixed::from_raw(40), Fixed::from_raw(77)),
        vec(0.0, 0.0, 0.0),
        vec(1e5, -3e5, 2e5),
    ];
    for d in directions {
        let c = background(&Ray { origin: vec(1.0, 2.0, 3.0), direction: d });
        assert!(8_388_608 <= c.x().raw && c.x().raw <= 16_777_216);
        assert!(11_744_051 <= c.y().raw && c.y().raw <= 16_777_216);
        assert_eq!(c.z().raw, 16_777_216);
    }
}

#[test]
fn a_ray_that_hits_nothing_sees_the_background() {
    let empty = world_of(vec![]);
    let behind = world_of(vec![ball(5.0, 1.0, grey())]);
    for depth in [1, 2, 50] {
        assert_eq!(ray_color(up(), &empty, depth), sky());
        assert_eq!(ray_color(forward(), &empty, depth), background(&forward()));
        assert_eq!(ray_color(forward(), &behind, depth), background(&forward()));
        assert_eq!(ray_color_with(up(), &behind, depth, &vec![]), sky());
    }
}

#[test]
fn one_bounce_multiplies_albedo_and_background() {
    let world = world_of(vec![ball(-2.0, 1.0, grey())]);
    // the ray hits at (0, 0, -1) with normal (0, 0, 1); the sample sends it
    // along (0, 1, 1), which leaves the scene
    let samples = vec![Sample { point: vec(0.0, 0.5, 0.0), draw: num(0.0) }];
    let scattered = Ray { origin: vec(0.0, 0.0, -1.0), direction: vec(0.0, 1.0, 1.0) };
    let expected = vec(0.5, 0.5, 0.5) * background(&scattered);
    assert_eq!(ray_color_with(forward(), &world, 2, &samples), expected);
    assert_eq!(ray_color_with(forward(), &world, 50, &samples), expected);
    // with a single step allowed the scattered ray is not followed
    assert_eq!(ray_color_with(forward(), &world, 1, &samples), black());
}

#[test]
fn missing_samples_count_as_zero() {
    let world = world_of(vec![ball(-2.0, 1.0, grey())]);
    // the zero point sends the ray along the normal
    let scattered = Ray { origin: vec(0.0, 0.0, -1.0), direction: vec(0.0, 0.0, 1.0) };
    let expected = vec(0.5, 0.5, 0.5) * background(&scattered);
    assert_eq!(ray_color_with(forward(), &world, 2, &vec![]), expected);
}

#[test]
fn an_absorbed_ray_is_black() {
    let rough = Material::Metal(Metal { albedo: vec(0.7, 0.6, 0.5), fuzz: num(1.0) });
    let world = world_of(vec![Sphere {
        center: vec(0.0, -1.0, -2.0),
        radius: num(1.0),
        material: rough,
    }]);
    // grazing hit on top of the sphere at (0, 0, -2), normal (0, 1, 0)
    let ray = Ray { origin: vec(0.0, 0.5, 0.0), direction: vec(0.0, -0.25, -1.0) };
    let rec = world.hit(&ray, num(0.001), Fixed::max_value()).unwrap();
    assert_eq!(rec.p, vec(0.0, 0.0, -2.0));
    assert_eq!(rec.normal, vec(0.0, 1.0, 0.0));
    let down = vec![Sample { point: vec(0.0, -0.5, 0.0), draw: num(0.0) }];
    assert_eq!(ray_color_with(ray, &world, 10, &down), black());
    let level = vec![Sample { point: vec(0.0, 0.0, 0.0), draw: num(0.0) }];
    let mirrored = Ray { origin: vec(0.0, 0.0, -2.0), direction: vec(0.0, 0.25, -1.0) };
    assert_eq!(
        ray_color_with(ray, &world, 10, &level),
        vec(0.7, 0.6, 0.5) * background(&mirrored)
    );
}

#[test]
fn two_bounces_multiply_both_albedos() {
    let red = Material::Lambertian(Lambertian { albedo: vec(0.5, 0.25, 0.25) });
    let mirror = Material::Metal(Metal { albedo: vec(0.5, 0.5, 1.0), fuzz: num(0.0) });
    let world = world_of(vec![
        ball(-3.0, 1.0, mirror),
        Sphere { center: vec(0.0, 0.0, 4.0), radius: num(1.0), material: red },
    ]);
    // the mirror at z = -2 sends the ray back to the red sphere at z = 3,
    // which scatters it along (0, 1, -1) up into the sky
    let samples = vec![
        Sample { point: vec(0.0, 0.0, 0.0), draw: num(0.0) },
        Sample { point: vec(0.0, 0.5, 0.0), draw: num(0.0) },
    ];
    let last = Ray { origin: vec(0.0, 0.0, 3.0), direction: vec(0.0, 1.0, -1.0) };
    let expected = vec(0.5, 0.5, 1.0) * (vec(0.5, 0.25, 0.25) * background(&last));
    assert_eq!(ray_color_with(forward(), &world, 3, &samples), expected);
    assert_eq!(ray_color_with(forward(), &world, 2, &samples), black());
}

#[test]
fn glass_ball_of_index_one_is_invisible_head_on() {
    let clear = Material::Dielectric(Dielectric { ir: num(1.0) });
    let world = world_of(vec![ball(-3.0, 1.0, clear)]);
    for _ in 0..20 {
        assert_eq!(ray_color(forward(), &world, 5), background(&forward()));
    }
}

#[test]
fn shadow_epsilon_lets_a_ray_leave_its_surface() {
    let world = world_of(vec![ball(-2.0, 1.0, grey())]);
    let leaving = Ray { origin: vec(0.0, 0.0, -1.0), direction: vec(0.0, 0.0, 1.0) };
    assert_eq!(ray_color(leaving, &world, 5), background(&leaving));
}

#[test]
fn unit_sphere_touching_the_eye_is_hit_on_its_far_side() {
    let world = world_of(vec![ball(-1.0, 1.0, grey())]);
    let rec = world.hit(&forward(), num(0.001), Fixed::max_value()).unwrap();
    assert_eq!(rec.t, num(2.0));
    assert_eq!(rec.normal, vec(0.0, 0.0, 1.0));
    assert!(!rec.front_face);
    assert_eq!(rec.material, grey());
    // a ray that bounces along the axis never leaves the closed sphere
    for depth in [1, 2, 8] {
        assert_eq!(ray_color_with(forward(), &world, depth, &vec![]), black());
    }
    assert_eq!(ray_color(forward(), &world, 1), black());
}

#[test]
fn diffuse_sphere_ahead_is_lit_by_the_sky() {
    let world = world_of(vec![ball(-2.0, 1.0, grey())]);
    let rec = world.hit(&forward(), num(0.001), Fixed::max_value()).unwrap();
    assert_eq!(rec.t, num(1.0));
    assert_eq!(rec.p, vec(0.0, 0.0, -1.0));
    assert_eq!(rec.normal, vec(0.0, 0.0, 1.0));
    assert!(rec.front_face);
    // one bounce into the sky: the albedo times a colour between white and
    // sky blue, so darker than the albedo and not black
    let samples = vec![Sample { point: vec(0.6, 0.0, 0.8), draw: num(0.0) }];
    let c = ray_color_with(forward(), &world, 2, &samples);
    for (channel, low) in [(c.x(), 0.25), (c.y(), 0.35), (c.z(), 0.5)] {
        assert!(as_f64(channel) <= 0.5);
        assert!(as_f64(channel) >= low - 1e-6);
    }
    assert!(as_f64(c.x()) < 0.5 && as_f64(c.y()) < 0.5);
    // the same with random bounces; a scattered ray that all but cancels
    // the normal may be lost to rounding, which leaves the pixel black
    let mut lit = 0;
    for _ in 0..100 {
        let c = ray_color(forward(), &world, 2);
        assert_ne!(c, vec(1.0, 1.0, 1.0));
        for channel in [c.x(), c.y(), c.z()] {
            assert!(0.0 <= as_f64(channel) && as_f64(channel) <= 0.5);
        }
        if c != black() {
            assert!(as_f64(c.x()) >= 0.25 - 1e-6);
            lit += 1;
        }
    }
    assert!(lit >= 90);
}
