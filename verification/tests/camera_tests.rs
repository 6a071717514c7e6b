use raytracer::camera::Camera;
use raytracer::fixed::Fixed;
use raytracer::ray::Ray;
use raytracer::vec3::Vec3;

fn num(x: f64) -> Fixed {
    Fixed::from_raw((x * 16777216.0).round() as i64)
}

fn vec(x: f64, y: f64, z: f64) -> Vec3 {
    Vec3(num(x), num(y), num(z))
}

fn as_f64(a: Fixed) -> f64 {
    a.raw as f64 / 16777216.0
}

fn pinhole() -> Camera {
    Camera {
        half_height: num(1.0),
        aspect_ratio: num(2.0),
        look_at: vec(0.0, 0.0, -1.0),
        look_from: vec(0.0, 0.0, 0.0),
        vup: vec(0.0, 1.0, 0.0),
        aperture: num(0.0),
        focus_distance: num(1.0),
    }
}

#[test]
fn pinhole_rays_start_at_the_eye_and_span_the_viewport() {
    let cam = pinhole();
    let lens = vec(0.5, -0.5, 0.0);
    assert_eq!(
        cam.get_ray_with(num(0.5), num(0.5), lens),
        Ray { origin: vec(0.0, 0.0, 0.0), direction: vec(0.0, 0.0, -1.0) }
    );
    assert_eq!(cam.get_ray_with(num(0.0), num(0.0), lens).direction, vec(-2.0, -1.0, -1.0));
    assert_eq!(cam.get_ray_with(num(1.0), num(1.0), lens).direction, vec(2.0, 1.0, -1.0));
    assert_eq!(cam.get_ray_with(num(0.75), num(0.25), lens).direction, vec(1.0, -0.5, -1.0));
}

#[test]
fn image_coordinates_may_leave_the_unit_square() {
    let cam = pinhole();
    let lens = vec(0.0, 0.0, 0.0);
    assert_eq!(cam.get_ray_with(num(1.5), num(-0.5), lens).direction, vec(4.0, -2.0, -1.0));
}

#[test]
fn focus_distance_scales_the_focus_plane() {
    let mut cam = pinhole();
    cam.focus_distance = num(4.0);
    let lens = vec(0.0, 0.0, 0.0);
    assert_eq!(cam.get_ray_with(num(1.0), num(1.0), lens).direction, vec(8.0, 4.0, -4.0));
    assert_eq!(cam.get_ray_with(num(0.5), num(0.5), lens).direction, vec(0.0, 0.0, -4.0));
}

#[test]
fn aperture_moves_the_origin_and_keeps_the_target() {
    let mut cam = pinhole();
    cam.aperture = num(0.5);
    cam.focus_distance = num(2.0);
    // lens radius 0.25, so the origin moves by (0.125, -0.25, 0)
    let ray = cam.get_ray_with(num(0.5), num(0.5), vec(0.5, -1.0, 0.0));
    assert_eq!(ray.origin, vec(0.125, -0.25, 0.0));
    assert_eq!(ray.direction, vec(-0.125, 0.25, -2.0));
    assert_eq!(ray.at_t(num(1.0)), vec(0.0, 0.0, -2.0));
}

#[test]
fn camera_turns_with_its_line_of_sight() {
    let cam = Camera {
        half_height: num(0.5),
        aspect_ratio: num(1.0),
        look_at: vec(5.0, 0.0, 0.0),
        look_from: vec(1.0, 0.0, 0.0),
        vup: vec(0.0, 1.0, 0.0),
        aperture: num(0.0),
        focus_distance: num(2.0),
    };
    // w = (-1, 0, 0), u = (0, 0, 1), v = (0, 1, 0); the focus plane is 2 by 2
    let lens = vec(0.0, 0.0, 0.0);
    assert_eq!(
        cam.get_ray_with(num(0.5), num(0.5), lens),
        Ray { origin: vec(1.0, 0.0, 0.0), direction: vec(2.0, 0.0, 0.0) }
    );
    assert_eq!(cam.get_ray_with(num(0.0), num(0.0), lens).direction, vec(2.0, -1.0, -1.0));
    assert_eq!(cam.get_ray_with(num(1.0), num(1.0), lens).direction, vec(2.0, 1.0, 1.0));
}

#[test]
fn random_rays_leave_from_the_lens_towards_the_focus_point() {
    let mut cam = pinhole();
    cam.aperture = num(0.5);
    cam.focus_distance = num(2.0);
    for _ in 0..100 {
        let ray = cam.get_ray(num(0.5), num(0.5));
        let o = ray.origin;
        assert_eq!(o.z(), num(0.0));
        assert!(as_f64(o.length()) <= 0.25 + 1e-6);
        assert_eq!(ray.at_t(num(1.0)), vec(0.0, 0.0, -2.0));
    }
}

#[test]
fn random_rays_of_a_pinhole_are_all_the_same() {
    let cam = pinhole();
    let expected = cam.get_ray_with(num(0.25), num(0.75), vec(0.0, 0.0, 0.0));
    for _ in 0..50 {
        assert_eq!(cam.get_ray(num(0.25), num(0.75)), expected);
    }
}

#[test]
fn slanted_view_has_an_orthonormal_basis_within_rounding() {
    let cam = Camera {
        half_height: num(0.176),
        aspect_ratio: num(1.5),
        look_at: vec(4.0, 1.0, 0.0),
        look_from: vec(30.0, 10.0, 3.0),
        vup: vec(0.0, 1.0, 0.0),
        aperture: num(0.0),
        focus_distance: num(10.0),
    };
    let centre = cam.get_ray_with(num(0.5), num(0.5), vec(0.0, 0.0, 0.0));
    assert_eq!(centre.origin, vec(30.0, 10.0, 3.0));
    let d = centre.direction.unit_vector();
    let towards = (cam.look_at - cam.look_from).unit_vector();
    assert!(as_f64((d - towards).length()) < 1e-5);
    assert!((as_f64(centre.direction.length()) - 10.0).abs() < 1e-4);
}
