//! Turning accumulated colour into displayable channel values.

use crate::fixed::{fx, fx_clamp, fx_div, fx_mul, fx_ratio, fx_sqrt, fx_whole, Fixed, ONE_RAW};
use crate::vec3::Color;
use vstd::prelude::*;

verus! {

/// The channel value of the sum `total` of `samples` colour samples: the
/// square root of their mean (gamma 2), held within `[0, 0.999]`, times 256,
/// without its fraction.  It lies in the displayable range from 0 to 255.
pub open spec fn channel_spec(total: Fixed, samples: Fixed) -> int {
    let mean = fx_mul(total, fx_div(fx(ONE_RAW as int), samples));
    let held = fx_clamp(fx_sqrt(mean), fx(0), fx_ratio(999, 1000));
    fx_whole(fx_mul(fx(256 * ONE_RAW), held))
}

/// The channel value of one accumulated colour component.
pub fn channel(total: Fixed, samples_per_pixel: Fixed) -> (c: i64)
    ensures
        c == channel_spec(total, samples_per_pixel),
        0 <= c <= 255,
{
    let scale = Fixed::one() / samples_per_pixel;
    let held = (total * scale).sqrt().clamp(Fixed::zero(), Fixed::from_ratio(999, 1000));
    proof {
        assert(0 <= held@ <= 16_760_438);
        assert(256 * ONE_RAW * held@ == (256 * held@) * ONE_RAW) by (nonlinear_arith);
    }
    (Fixed::from_int(256) * held).whole()
}

/// The red, green and blue channel values of an accumulated pixel colour.
pub fn to_rgb(pixel_color: Color, samples_per_pixel: Fixed) -> (rgb: (i64, i64, i64))
    ensures
        rgb.0 == channel_spec(pixel_color.0, samples_per_pixel),
        rgb.1 == channel_spec(pixel_color.1, samples_per_pixel),
        rgb.2 == channel_spec(pixel_color.2, samples_per_pixel),
        0 <= rgb.0 <= 255,
        0 <= rgb.1 <= 255,
        0 <= rgb.2 <= 255,
{
    (
        channel(pixel_color.x(), samples_per_pixel),
        channel(pixel_color.y(), samples_per_pixel),
        channel(pixel_color.z(), samples_per_pixel),
    )
}

} // verus!
