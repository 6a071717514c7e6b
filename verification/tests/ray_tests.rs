use raytracer::fixed::Fixed;
use raytracer::ray::Ray;
use raytracer::vec3::Vec3;

fn num(x: f64) -> Fixed {
    Fixed::from_raw((x * 16777216.0).round() as i64)
}

fn vec(x: f64, y: f64, z: f64) -> Vec3 {
    Vec3(num(x), num(y), num(z))
}

#[test]
fn at_t_walks_along_the_direction() {
    let r = Ray { origin: vec(1.0, 2.0, 3.0), direction: vec(0.5, -1.0, 2.0) };
    assert_eq!(r.at_t(num(0.0)), vec(1.0, 2.0, 3.0));
    assert_eq!(r.at_t(num(2.0)), vec(2.0, 0.0, 7.0));
    assert_eq!(r.at_t(num(-1.0)), vec(0.5, 3.0, 1.0));
}
