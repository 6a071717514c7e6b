use raytracer::fixed::Fixed;
use raytracer::vec3::{
    cross, dot, pick_in_unit_disk, pick_in_unit_sphere, reflect, refract, Vec3,
};
use std::ops::Neg;

fn num(x: f64) -> Fixed {
    Fixed::from_raw((x * 16777216.0).round() as i64)
}

fn vec(x: f64, y: f64, z: f64) -> Vec3 {
    Vec3(num(x), num(y), num(z))
}

fn as_f64(a: Fixed) -> f64 {
    a.raw as f64 / 16777216.0
}

fn close(a: Fixed, b: f64, tolerance: f64) -> bool {
    (as_f64(a) - b).abs() <= tolerance
}

#[test]
fn components_are_read_back() {
    let v = vec(1.0, -2.0, 3.5);
    assert_eq!(v.x(), num(1.0));
    assert_eq!(v.y(), num(-2.0));
    assert_eq!(v.z(), num(3.5));
}

#[test]
fn operators_work_componentwise() {
    let u = vec(1.0, 2.0, 3.0);
    let v = vec(0.5, -4.0, 2.0);
    assert_eq!(u + v, vec(1.5, -2.0, 5.0));
    assert_eq!(u - v, vec(0.5, 6.0, 1.0));
    assert_eq!(u * v, vec(0.5, -8.0, 6.0));
    assert_eq!(u / v, vec(2.0, -0.5, 1.5));
    assert_eq!(u * num(2.0), vec(2.0, 4.0, 6.0));
    assert_eq!(num(2.0) * u, vec(2.0, 4.0, 6.0));
    assert_eq!(u / num(2.0), vec(0.5, 1.0, 1.5));
    assert_eq!(u + num(1.0), vec(2.0, 3.0, 4.0));
    assert_eq!(u.neg(), vec(-1.0, -2.0, -3.0));
}

#[test]
fn compound_assignment_updates_in_place() {
    let mut v = vec(1.0, 2.0, 3.0);
    v += vec(0.5, 0.5, 0.5);
    assert_eq!(v, vec(1.5, 2.5, 3.5));
    v *= num(2.0);
    assert_eq!(v, vec(3.0, 5.0, 7.0));
    v /= num(4.0);
    assert_eq!(v, vec(0.75, 1.25, 1.75));
}

#[test]
fn division_by_a_zero_component_gives_zero() {
    let u = vec(1.0, 2.0, 3.0);
    assert_eq!(u / vec(1.0, 0.0, 1.0), vec(1.0, 0.0, 3.0));
    assert_eq!(u / num(0.0), vec(0.0, 0.0, 0.0));
}

#[test]
fn dot_of_small_integers_is_exact() {
    let u = vec(1.0, 2.0, 3.0);
    let v = vec(4.0, -5.0, 6.0);
    assert_eq!(dot(u, v), num(12.0));
    assert_eq!(u.dot(v), num(12.0));
}

#[test]
fn cross_of_axes_is_third_axis() {
    let x = vec(1.0, 0.0, 0.0);
    let y = vec(0.0, 1.0, 0.0);
    assert_eq!(cross(x, y), vec(0.0, 0.0, 1.0));
    assert_eq!(cross(y, x), vec(0.0, 0.0, -1.0));
    assert_eq!(x.cross(y), vec(0.0, 0.0, 1.0));
    assert_eq!(cross(vec(1.0, 2.0, 3.0), vec(4.0, 5.0, 6.0)), vec(-3.0, 6.0, -3.0));
}

#[test]
fn length_of_three_four_is_five() {
    let v = vec(3.0, 4.0, 0.0);
    assert_eq!(v.length_squared(), num(25.0));
    assert_eq!(v.length(), num(5.0));
}

#[test]
fn unit_vector_of_axis_multiple_is_the_axis() {
    assert_eq!(vec(0.0, 7.0, 0.0).unit_vector(), vec(0.0, 1.0, 0.0));
    assert_eq!(vec(0.0, 0.0, -3.0).unit_vector(), vec(0.0, 0.0, -1.0));
    assert_eq!(
        vec(3.0, 4.0, 0.0).unit_vector(),
        Vec3(Fixed::from_ratio(3, 5), Fixed::from_ratio(4, 5), num(0.0))
    );
}

#[test]
fn unit_vector_has_length_one_within_rounding() {
    let cases = [
        vec(1.0, 2.0, 3.0),
        vec(-0.6, 0.8, 0.5),
        vec(100.0, -250.0, 0.125),
        vec(26.0, 9.0, 3.0),
        vec(-1000.0, 1000.0, 1000.0),
    ];
    for v in cases {
        let u = v.unit_vector();
        assert!(close(u.length(), 1.0, 1e-6));
        assert!(close(u.length_squared(), 1.0, 1e-6));
    }
}

#[test]
fn unit_vector_of_a_vector_longer_than_one_is_within_ten_ulp() {
    let cases = [
        vec(1.0, 2.0, 3.0),
        vec(-0.6, 0.8, 0.5),
        vec(100.0, -250.0, 0.125),
        vec(26.0, 9.0, 3.0),
        vec(-1000.0, 1000.0, 1000.0),
        vec(0.0, 1.0, 0.0),
        vec(65536.0, -65536.0, 65536.0),
    ];
    for v in cases {
        assert!(v.length().raw >= 16_777_216);
        let squared = v.unit_vector().length_squared().raw;
        assert!(16_777_216 - 10 <= squared && squared <= 16_777_216 + 5);
    }
}

#[test]
fn unit_vector_of_a_vector_longer_than_a_tenth_is_within_320_ulp() {
    // for a length of at least 1 / k the excess is at most 3 k^2 + 2 k
    let cases = [vec(0.11, 0.0, 0.0), vec(0.07, -0.08, 0.06), vec(0.3, 0.1, -0.2)];
    for v in cases {
        assert!(v.length().raw * 10 >= 16_777_216);
        let squared = v.unit_vector().length_squared().raw;
        assert!(16_777_216 - 10 <= squared && squared <= 16_777_216 + 320);
    }
}

#[test]
fn unit_vector_of_a_short_vector_keeps_its_direction() {
    let u = vec(0.01, 0.02, -0.03).unit_vector();
    assert!(close(u.length(), 1.0, 1e-5));
    assert!(close(u.x(), 0.01 / (0.0014f64).sqrt(), 1e-5));
    assert!(close(u.y(), 0.02 / (0.0014f64).sqrt(), 1e-5));
    assert!(close(u.z(), -0.03 / (0.0014f64).sqrt(), 1e-5));
}

#[test]
fn length_is_exact_however_short_the_vector() {
    // the squared length of 5000 raw units rounds to one unit, the length does not
    let v = Vec3(Fixed::from_raw(5000), num(0.0), num(0.0));
    assert_eq!(v.length_squared().raw, 1);
    assert_eq!(v.length().raw, 5000);
    assert_eq!(v.unit_vector(), vec(1.0, 0.0, 0.0));
    let w = Vec3(Fixed::from_raw(3), Fixed::from_raw(-4), num(0.0));
    assert_eq!(w.length().raw, 5);
    assert_eq!(w.unit_vector(), Vec3(Fixed::from_ratio(3, 5), Fixed::from_ratio(-4, 5), num(0.0)));
    let one_unit = Vec3(num(0.0), num(0.0), Fixed::from_raw(-1));
    assert_eq!(one_unit.unit_vector(), vec(0.0, 0.0, -1.0));
}

#[test]
fn length_saturates_on_the_largest_vectors() {
    let big = Fixed::from_raw(i64::MAX);
    assert_eq!(Vec3(big, big, big).length().raw, i64::MAX);
    assert_eq!(Vec3(big, num(0.0), num(0.0)).length().raw, i64::MAX);
}

#[test]
fn unit_vector_of_any_vector_is_within_four_ulp() {
    let cases = [
        Vec3(Fixed::from_raw(5000), Fixed::from_raw(7), Fixed::from_raw(-300)),
        Vec3(Fixed::from_raw(1), Fixed::from_raw(1), Fixed::from_raw(1)),
        Vec3(Fixed::from_raw(3), Fixed::from_raw(-7), Fixed::from_raw(1)),
        Vec3(Fixed::from_raw(0), Fixed::from_raw(0), Fixed::from_raw(-1)),
        vec(0.001, -0.002, 0.0005),
        vec(0.3, 0.1, -0.2),
        vec(1000.0, -3000.5, 17.25),
        Vec3(Fixed::from_raw(i64::MAX), Fixed::from_raw(-i64::MAX), Fixed::from_raw(12345)),
        Vec3(Fixed { raw: i64::MIN }, Fixed { raw: i64::MIN }, Fixed { raw: i64::MIN }),
    ];
    for v in cases {
        let u = v.unit_vector();
        let length = u.length().raw;
        assert!(16_777_216 - 4 <= length && length <= 16_777_216 + 1);
        let squared = u.length_squared().raw;
        assert!(16_777_216 - 9 <= squared && squared <= 16_777_216 + 2);
        for (c, x) in [(u.x(), v.x()), (u.y(), v.y()), (u.z(), v.z())] {
            assert!(c.raw.abs() <= 16_777_216);
            assert!(c.raw == 0 || (c.raw > 0) == (x.raw > 0));
        }
    }
}

#[test]
fn unit_vector_of_a_few_units_keeps_its_direction() {
    // (3, -7, 1) raw units, of length 7.68 units
    let v = Vec3(Fixed::from_raw(3), Fixed::from_raw(-7), Fixed::from_raw(1));
    let u = v.unit_vector();
    let length = (59.0f64).sqrt();
    assert!(close(u.x(), 3.0 / length, 1e-7));
    assert!(close(u.y(), -7.0 / length, 1e-7));
    assert!(close(u.z(), 1.0 / length, 1e-7));
}

#[test]
fn pick_in_unit_sphere_takes_the_first_candidate_inside() {
    let outside = vec(0.9, 0.9, 0.0);
    let on_the_sphere = vec(0.0, -1.0, 0.0);
    let inside = vec(0.5, -0.5, 0.5);
    let later = vec(0.1, 0.0, 0.0);
    assert_eq!(pick_in_unit_sphere(&vec![outside, on_the_sphere, inside, later]), inside);
    assert_eq!(pick_in_unit_sphere(&vec![later, inside]), later);
    assert_eq!(pick_in_unit_sphere(&vec![outside, on_the_sphere]), vec(0.0, 0.0, 0.0));
    assert_eq!(pick_in_unit_sphere(&vec![]), vec(0.0, 0.0, 0.0));
}

#[test]
fn pick_in_unit_disk_takes_the_first_candidate_inside() {
    let outside = vec(0.9, 0.9, 0.0);
    let on_the_circle = vec(0.0, -1.0, 0.0);
    let inside = vec(0.5, -0.5, 0.0);
    assert_eq!(pick_in_unit_disk(&vec![outside, on_the_circle, inside]), on_the_circle);
    assert_eq!(pick_in_unit_disk(&vec![outside, inside, on_the_circle]), inside);
    assert_eq!(pick_in_unit_disk(&vec![outside]), vec(0.0, 0.0, 0.0));
    assert_eq!(pick_in_unit_disk(&vec![]), vec(0.0, 0.0, 0.0));
}

#[test]
fn unit_vector_of_zero_is_zero() {
    assert_eq!(vec(0.0, 0.0, 0.0).unit_vector(), vec(0.0, 0.0, 0.0));
}

#[test]
fn near_zero_means_below_one_hundred_millionth() {
    assert!(vec(0.0, 0.0, 0.0).near_zero());
    assert!(!Vec3(Fixed::from_raw(1), num(0.0), num(0.0)).near_zero());
    assert!(!Vec3(num(0.0), Fixed::from_raw(-1), num(0.0)).near_zero());
    assert!(!vec(0.0, 0.0, 1e-6).near_zero());
}

#[test]
fn reflect_off_floor_flips_height() {
    let v = vec(1.0, -1.0, 0.5);
    let n = vec(0.0, 1.0, 0.0);
    assert_eq!(reflect(v, n), vec(1.0, 1.0, 0.5));
    assert_eq!(reflect(v, n).length_squared(), v.length_squared());
}

#[test]
fn reflect_follows_the_mirror_formula() {
    // v - 2 (v . n) n with v . n = -1.5
    let v = vec(1.0, -2.0, 0.5);
    let n = vec(0.5, 1.0, 0.0);
    assert_eq!(reflect(v, n), vec(2.5, 1.0, 0.5));
}

#[test]
fn reflect_keeps_length_within_rounding() {
    let normals = [vec(1.0, 2.0, 2.0), vec(-1.0, 1.0, 0.0), vec(0.3, -0.2, 0.9)];
    let incoming = [vec(0.0, 0.0, -1.0), vec(1.0, 1.0, 1.0), vec(-0.6, 0.0, 0.8)];
    for n in normals {
        let n = n.unit_vector();
        for v in incoming {
            let v = v.unit_vector();
            let r = reflect(v, n);
            assert!(close(r.length(), as_f64(v.length()), 1e-5));
        }
    }
}

#[test]
fn reflect_keeps_squared_length_within_128_ulp() {
    let normals = [vec(1.0, 2.0, 2.0), vec(-1.0, 1.0, 0.0), vec(0.3, -0.2, 0.9), vec(7.0, 0.0, 1.0)];
    let incoming = [vec(0.0, 0.0, -1.0), vec(1.0, 1.0, 1.0), vec(-0.6, 0.0, 0.8), vec(5.0, -3.0, 1.0)];
    for n in normals {
        let n = n.unit_vector();
        for v in incoming {
            let v = v.unit_vector();
            let before = v.length_squared().raw;
            let after = reflect(v, n).length_squared().raw;
            assert!((after - before).abs() <= 128);
        }
    }
}

#[test]
fn reflect_keeps_the_squared_length_of_long_vectors() {
    // for a length of at most w the difference is at most 80 w^2 + 43 w + 3 units
    let normals = [vec(1.0, 2.0, 2.0), vec(-1.0, 1.0, 0.0), vec(0.3, -0.2, 0.9)];
    let incoming = [
        (vec(3.0, -4.0, 12.0), 13),
        (vec(0.001, 0.002, -0.003), 1),
        (vec(-700.0, 50.0, 100.0), 709),
        (vec(1.5, 0.0, 0.0), 2),
    ];
    for n in normals {
        let n = n.unit_vector();
        for (v, w) in incoming {
            assert!(v.length().raw <= w * 16_777_216);
            let before = v.length_squared().raw;
            let after = reflect(v, n).length_squared().raw;
            assert!((after - before).abs() <= 80 * w * w + 43 * w + 3);
        }
    }
}

#[test]
fn refract_head_on_with_equal_media_goes_straight() {
    let uv = vec(0.0, 0.0, -1.0);
    let n = vec(0.0, 0.0, 1.0);
    assert_eq!(refract(uv, n, num(1.0)), uv);
}

#[test]
fn refract_head_on_keeps_direction_for_any_ratio() {
    let uv = vec(0.0, -1.0, 0.0);
    let n = vec(0.0, 1.0, 0.0);
    assert_eq!(refract(uv, n, num(0.5)), uv);
    assert_eq!(refract(uv, n, num(1.5)), uv);
}

#[test]
fn refract_bends_by_snell() {
    // 45 degrees onto a denser medium with ratio 1 / 1.5
    let uv = vec(1.0, -1.0, 0.0).unit_vector();
    let n = vec(0.0, 1.0, 0.0);
    let r = refract(uv, n, num(1.0 / 1.5));
    let sin_out = (0.5f64).sqrt() / 1.5;
    assert!(close(r.x(), sin_out, 1e-6));
    assert!(close(r.y(), -(1.0 - sin_out * sin_out).sqrt(), 1e-6));
    assert_eq!(r.z(), num(0.0));
}

#[test]
fn refract_clamps_below_the_root() {
    // ratio 2 at 45 degrees: the perpendicular part alone is longer than one
    let uv = vec(1.0, -1.0, 0.0).unit_vector();
    let n = vec(0.0, 1.0, 0.0);
    let r = refract(uv, n, num(2.0));
    assert!(close(r.x(), 2.0 * (0.5f64).sqrt(), 1e-6));
    assert!(close(r.y(), 0.0, 1e-6));
}

#[test]
fn random_components_lie_in_unit_interval() {
    for _ in 0..200 {
        let v = Vec3::random();
        for c in [v.x(), v.y(), v.z()] {
            assert!(0 <= c.raw && c.raw < 16_777_216);
        }
    }
}

#[test]
fn random_with_limits_lies_within_limits() {
    for _ in 0..200 {
        let v = Vec3::random_with_limits(num(0.5), num(1.0));
        for c in [v.x(), v.y(), v.z()] {
            assert!(num(0.5).raw <= c.raw && c.raw < num(1.0).raw);
        }
    }
}

#[test]
fn random_draws_differ() {
    let first = Vec3::random_with_limits(num(-1.0), num(1.0));
    let mut all_equal = true;
    let mut all_at_lower_limit = first == vec(-1.0, -1.0, -1.0);
    for _ in 0..50 {
        let v = Vec3::random_with_limits(num(-1.0), num(1.0));
        all_equal = all_equal && v == first;
        all_at_lower_limit = all_at_lower_limit && v == vec(-1.0, -1.0, -1.0);
    }
    assert!(!all_equal);
    assert!(!all_at_lower_limit);
}

#[test]
fn random_in_unit_sphere_is_inside() {
    for _ in 0..200 {
        let p = Vec3::random_in_unit_sphere();
        assert!(p.length_squared().raw < 16_777_216);
    }
}

#[test]
fn random_unit_vector_has_length_one() {
    for _ in 0..200 {
        let v = Vec3::random_unit_vector();
        if v != vec(0.0, 0.0, 0.0) {
            let length = v.length().raw;
            assert!(16_777_216 - 4 <= length && length <= 16_777_216 + 1);
        }
    }
}

#[test]
fn random_in_unit_disk_is_flat_and_inside() {
    for _ in 0..200 {
        let p = Vec3::random_in_unit_disk();
        assert_eq!(p.z(), num(0.0));
        assert!(p.length().raw <= 16_777_216);
    }
}
