use raytracer::color::{channel, to_rgb};
use raytracer::fixed::Fixed;
use raytracer::vec3::Vec3;

fn num(x: f64) -> Fixed {
    Fixed::from_raw((x * 16777216.0).round() as i64)
}

#[test]
fn channel_takes_the_root_of_the_mean() {
    assert_eq!(channel(num(0.0), num(1.0)), 0);
    assert_eq!(channel(num(0.25), num(1.0)), 128);
    assert_eq!(channel(num(1.0), num(4.0)), 128);
    assert_eq!(channel(num(0.5625), num(1.0)), 192);
}

#[test]
fn channel_stays_within_the_displayable_range() {
    // 256 * 0.999 = 255.74, of which the whole part is taken
    assert_eq!(channel(num(1.0), num(1.0)), 255);
    assert_eq!(channel(num(100.0), num(1.0)), 255);
    assert_eq!(channel(num(-3.0), num(1.0)), 0);
    assert_eq!(channel(Fixed::from_raw(i64::MAX), Fixed::from_raw(1)), 255);
}

#[test]
fn channel_drops_the_fraction() {
    // the root of 0.3 is 0.5477, times 256 is 140.2; of 0.31, 142.5
    assert_eq!(channel(num(0.3), num(1.0)), 140);
    assert_eq!(channel(num(0.31), num(1.0)), 142);
}

#[test]
fn saturated_pixel_is_white() {
    assert_eq!(to_rgb(Vec3(num(1.0), num(1.0), num(1.0)), num(1.0)), (255, 255, 255));
}

#[test]
fn channel_without_samples_is_zero() {
    assert_eq!(channel(num(1.0), num(0.0)), 0);
}

#[test]
fn to_rgb_encodes_each_component() {
    let pixel = Vec3(num(16.0), num(64.0), num(0.0));
    assert_eq!(to_rgb(pixel, num(64.0)), (128, 255, 0));
}
