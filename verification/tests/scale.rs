use raytracer::color::{exposure, Color, Exposure};
use raytracer::math::root_count;
use raytracer::render::{is_mirror, nearest, pixel_radius, Candidate};
use raytracer::double::reciprocal;
use raytracer::scale::{bound_key, order_key, INFINITY, ONE, SIGN};
use raytracer::shapes::checkerboard::hit_count;

fn samples() -> Vec<f64> {
    let mut numbers = vec![
        0.0,
        -0.0,
        1.0,
        -1.0,
        0.1,
        -0.1,
        0.5,
        2.0,
        1e-300,
        -1e-300,
        1e300,
        -1e300,
        f64::MIN_POSITIVE,
        -f64::MIN_POSITIVE,
        5e-324,
        -5e-324,
        f64::MAX,
        f64::MIN,
        f64::INFINITY,
        f64::NEG_INFINITY,
        f64::EPSILON,
        1.0 + f64::EPSILON,
        1.0 - f64::EPSILON / 2.0,
    ];
    let mut seed: u64 = 0x9e3779b97f4a7c15;
    for _ in 0..200 {
        seed ^= seed << 13;
        seed ^= seed >> 7;
        seed ^= seed << 17;
        let number = f64::from_bits(seed);
        if !number.is_nan() {
            numbers.push(number);
        }
    }
    numbers
}

#[test]
fn order_key_has_fixed_places() {
    assert_eq!(order_key(0.0f64.to_bits()), 0);
    assert_eq!(order_key((-0.0f64).to_bits()), 0);
    assert_eq!(order_key(1.0f64.to_bits()), 0x3ff0_0000_0000_0000);
    assert_eq!(order_key((-1.0f64).to_bits()), -0x3ff0_0000_0000_0000);
    assert_eq!(order_key(5e-324f64.to_bits()), 1);
    assert_eq!(order_key((-5e-324f64).to_bits()), -1);
    assert_eq!(order_key(f64::INFINITY.to_bits()), 0x7ff0_0000_0000_0000);
    assert_eq!(order_key(f64::NEG_INFINITY.to_bits()), -0x7ff0_0000_0000_0000);
    assert_eq!(order_key(0), 0);
    assert_eq!(order_key(1 << 63), 0);
}

#[test]
fn order_key_puts_what_is_no_number_lowest() {
    assert_eq!(order_key(f64::NAN.to_bits()), i64::MIN);
    assert_eq!(order_key((-f64::NAN).to_bits()), i64::MIN);
    assert_eq!(order_key(0x7ff0_0000_0000_0001), i64::MIN);
    assert_eq!(order_key(0xfff0_0000_0000_0001), i64::MIN);
    assert_eq!(order_key(u64::MAX), i64::MIN);
    assert_eq!(order_key(0x7fff_ffff_ffff_ffff), i64::MIN);
}

#[test]
fn bound_key_puts_what_is_no_number_highest() {
    assert_eq!(bound_key(f64::NAN.to_bits()), i64::MAX);
    assert_eq!(bound_key(u64::MAX), i64::MAX);
    assert_eq!(bound_key(1.0f64.to_bits()), order_key(1.0f64.to_bits()));
    assert_eq!(bound_key((-0.0f64).to_bits()), 0);
    assert_eq!(bound_key(f64::NEG_INFINITY.to_bits()), -0x7ff0_0000_0000_0000);
}

#[test]
fn order_key_keeps_the_order_of_numbers() {
    let numbers = samples();
    for &a in &numbers {
        for &b in &numbers {
            let (ka, kb) = (order_key(a.to_bits()), order_key(b.to_bits()));
            assert_eq!(a < b, ka < kb, "{:?} < {:?}", a, b);
            assert_eq!(a == b, ka == kb, "{:?} == {:?}", a, b);
            assert_eq!(a > b, ka > bound_key(b.to_bits()), "{:?} > {:?}", a, b);
        }
        assert_eq!(a > 0.0, order_key(a.to_bits()) > 0, "{:?} > 0", a);
        assert_eq!(a < 0.0, bound_key(a.to_bits()) < 0, "{:?} < 0", a);
    }
}

#[test]
fn what_is_no_number_compares_false() {
    let nan = f64::NAN;
    for &a in &samples() {
        assert_eq!(nan > a, order_key(nan.to_bits()) > bound_key(a.to_bits()));
        assert_eq!(a > nan, order_key(a.to_bits()) > bound_key(nan.to_bits()));
        assert_eq!(nan < a, bound_key(nan.to_bits()) < order_key(a.to_bits()));
    }
    assert!(!(order_key(nan.to_bits()) > 0));
    assert!(!(bound_key(nan.to_bits()) < 0));
    assert!(!(order_key(nan.to_bits()) > bound_key(nan.to_bits())));
}

#[test]
fn nearest_picks_as_the_distances_compare() {
    let radius = 0.1f64;
    let hits: Vec<(f64, f64)> = vec![
        (-2.0, 2.0),
        (0.05, 0.05),
        (3.5, 3.5),
        (f64::NAN, 1.0),
        (1.25, f64::NAN),
        (1.5, 1.5),
        (-0.0, 7.0),
        (1.5, 9.0),
    ];
    let candidates: Vec<Candidate> = hits
        .iter()
        .map(|&(along, away)| Candidate { along: along.to_bits(), away: away.to_bits() })
        .collect();
    let expected = hits
        .iter()
        .enumerate()
        .filter(|&(_, &(along, _))| along > 0.0)
        .filter(|&(_, &(_, away))| away > radius)
        .min_by(|&(_, a), &(_, b)| a.0.partial_cmp(&b.0).unwrap())
        .map(|(i, _)| i);
    assert_eq!(expected, Some(5));
    assert_eq!(nearest(&candidates, radius.to_bits()), expected);
    assert_eq!(nearest(&candidates, f64::NAN.to_bits()), None);
}

#[test]
fn nearest_agrees_with_the_comparison_of_numbers() {
    let numbers = samples();
    let hits: Vec<(f64, f64)> = numbers
        .iter()
        .enumerate()
        .map(|(i, &along)| (along, numbers[(i * 7 + 3) % numbers.len()].abs()))
        .collect();
    let candidates: Vec<Candidate> = hits
        .iter()
        .map(|&(along, away)| Candidate { along: along.to_bits(), away: away.to_bits() })
        .collect();
    for &radius in &[0.0f64, 0.1, 1.0, 1e-300, 1e300, f64::INFINITY] {
        let expected = hits
            .iter()
            .enumerate()
            .filter(|&(_, &(along, _))| along > 0.0)
            .filter(|&(_, &(_, away))| away > radius)
            .min_by(|&(_, a), &(_, b)| a.0.partial_cmp(&b.0).unwrap())
            .map(|(i, _)| i);
        assert_eq!(nearest(&candidates, radius.to_bits()), expected, "{:?}", radius);
    }
}

#[test]
fn scale_names_the_bits_of_the_format() {
    assert_eq!(ONE, 1.0f64.to_bits());
    assert_eq!(INFINITY, f64::INFINITY.to_bits());
    assert_eq!(SIGN, (-0.0f64).to_bits());
}

#[test]
fn root_count_decides_as_the_discriminant_compares() {
    for &delta in samples().iter().chain([f64::NAN].iter()) {
        let expected = if delta == 0.0 {
            1
        } else if delta > 0.0 {
            2
        } else {
            0
        };
        assert_eq!(root_count(delta.to_bits()), expected, "{:?}", delta);
    }
}

#[test]
fn level_ray_never_meets_the_floor() {
    assert_eq!(hit_count(0.0f64.to_bits()), 0);
    assert_eq!(hit_count((-0.0f64).to_bits()), 0);
}

#[test]
fn hit_count_decides_as_the_direction_compares() {
    for &height in samples().iter().chain([f64::NAN].iter()) {
        let expected = if height == 0.0 { 0 } else { 1 };
        assert_eq!(hit_count(height.to_bits()), expected, "{:?}", height);
    }
}

#[test]
fn is_mirror_decides_as_the_reflectiveness_compares() {
    assert!(is_mirror(0.8f64.to_bits()));
    assert!(!is_mirror(0.0f64.to_bits()));
    assert!(!is_mirror((-0.0f64).to_bits()));
    assert!(!is_mirror((-0.2f64).to_bits()));
    for &reflectiveness in samples().iter().chain([f64::NAN].iter()) {
        assert_eq!(
            is_mirror(reflectiveness.to_bits()),
            !(reflectiveness <= 0.0),
            "{:?}",
            reflectiveness
        );
    }
}

fn dim_in_floating_point(color: &Color, illumination: f64) -> Color {
    if illumination <= 0.0 {
        Color::gray(0)
    } else if illumination >= 1.0 {
        *color
    } else {
        Color::rgb(
            (f64::from(color.r) * illumination) as u8,
            (f64::from(color.g) * illumination) as u8,
            (f64::from(color.b) * illumination) as u8,
        )
    }
}

fn dim(color: &Color, illumination: f64) -> Color {
    color.dim(illumination.to_bits())
}

#[test]
fn illumination_above_one_leaves_the_colour() {
    let color = Color::rgb(200, 100, 255);
    assert_eq!(dim(&color, 1.0), color);
    assert_eq!(dim(&color, 1.0 + f64::EPSILON), color);
    assert_eq!(dim(&color, 1.5), color);
    assert_eq!(dim(&color, 1e300), color);
    assert_eq!(dim(&color, f64::INFINITY), color);
    assert_eq!(exposure(1.0f64.to_bits()), Exposure::Full);
}

#[test]
fn illumination_below_zero_is_black() {
    let color = Color::rgb(200, 100, 255);
    assert_eq!(dim(&color, 0.0), Color::gray(0));
    assert_eq!(dim(&color, -0.0), Color::gray(0));
    assert_eq!(dim(&color, -5e-324), Color::gray(0));
    assert_eq!(dim(&color, -0.5), Color::gray(0));
    assert_eq!(dim(&color, -7.0), Color::gray(0));
    assert_eq!(dim(&color, f64::NEG_INFINITY), Color::gray(0));
    assert_eq!(exposure((-1.0f64).to_bits()), Exposure::Dark);
    assert_eq!(exposure(0.0f64.to_bits()), Exposure::Dark);
}

#[test]
fn illumination_that_is_no_number_is_black() {
    let color = Color::rgb(200, 100, 255);
    assert_eq!(dim(&color, f64::NAN), Color::gray(0));
    assert_eq!(dim(&color, -f64::NAN), Color::gray(0));
    assert_eq!(color.dim(u64::MAX), Color::gray(0));
    assert_eq!(color.dim(0x7ff0_0000_0000_0001), Color::gray(0));
    assert_eq!(exposure(f64::NAN.to_bits()), Exposure::Partial);
}

#[test]
fn illumination_between_scales_each_channel() {
    let color = Color::rgb(200, 100, 255);
    assert_eq!(dim(&color, 0.5), Color::rgb(100, 50, 127));
    assert_eq!(dim(&color, 0.25), Color::rgb(50, 25, 63));
    assert_eq!(dim(&color, 0.1), Color::rgb(20, 10, 25));
    assert_eq!(dim(&color, 0.999), Color::rgb(199, 99, 254));
    assert_eq!(dim(&color, 1.0 - f64::EPSILON / 2.0), Color::rgb(199, 99, 254));
    assert_eq!(dim(&color, 0.001), Color::gray(0));
    assert_eq!(dim(&color, 5e-324), Color::gray(0));
    assert_eq!(dim(&color, f64::MIN_POSITIVE), Color::gray(0));
    assert_eq!(exposure(0.5f64.to_bits()), Exposure::Partial);
    assert_eq!(exposure((1.0f64 - f64::EPSILON / 2.0).to_bits()), Exposure::Partial);
    assert_eq!(exposure(5e-324f64.to_bits()), Exposure::Partial);
}

#[test]
fn dim_rounds_a_product_as_the_format_does() {
    // 5 * 0.2 and 3 * (1 / 3) are a little off a whole number and round to it
    assert_eq!(dim(&Color::gray(5), 0.2), Color::gray(1));
    assert_eq!(dim(&Color::gray(3), 1.0 / 3.0), Color::gray(1));
    assert_eq!(dim(&Color::gray(10), 0.7), Color::gray(7));
    assert_eq!(dim(&Color::gray(255), 1.0 / 255.0), Color::gray(1));
    assert_eq!(dim(&Color::gray(100), 0.29), Color::gray(28));
    assert_eq!(dim(&Color::gray(100), 0.57), Color::gray(56));
}

#[test]
fn dim_never_brightens() {
    for &illumination in samples().iter().chain([f64::NAN, 0.25, 0.999].iter()) {
        for channel in 0u8..=255 {
            let dimmed = dim(&Color::gray(channel), illumination);
            assert!(dimmed.r <= channel);
        }
    }
}

#[test]
fn dim_agrees_with_the_multiplication_of_numbers() {
    let mut lights = samples();
    lights.extend([f64::NAN, 0.25, 0.999, 0.001, 0.5, 0.75, 1.0 / 3.0, 2.0 / 3.0].iter());
    let mut seed: u64 = 0x2545f4914f6cdd1d;
    for _ in 0..3000 {
        seed ^= seed << 13;
        seed ^= seed >> 7;
        seed ^= seed << 17;
        // a number between 2^-12 and 1
        let bits = (seed % ((1023 - 1011) << 52)) + (1011u64 << 52);
        lights.push(f64::from_bits(bits));
    }
    for &illumination in &lights {
        for channel in 0u8..=255 {
            let color = Color::rgb(channel, 255 - channel, channel / 2);
            assert_eq!(
                dim(&color, illumination),
                dim_in_floating_point(&color, illumination),
                "{:?} under {:?}",
                color,
                illumination
            );
        }
    }
}

#[test]
fn dim_agrees_next_to_every_whole_product() {
    for channel in 1u32..=255 {
        for whole in 0..=channel {
            let exact = f64::from(whole) / f64::from(channel);
            for step in -3i64..=3 {
                let bits = exact.to_bits() as i64 + step;
                if bits < 0 {
                    continue;
                }
                let illumination = f64::from_bits(bits as u64);
                let color = Color::gray(channel as u8);
                assert_eq!(
                    dim(&color, illumination),
                    dim_in_floating_point(&color, illumination),
                    "{:?} under {:?}",
                    channel,
                    illumination
                );
            }
        }
    }
}

fn radius_in_floating_point(width: usize, height: usize) -> f64 {
    1.0 / (std::cmp::max(width, height) as f64)
}

#[test]
fn pixel_radius_is_one_over_the_longer_side() {
    assert_eq!(pixel_radius(1, 1), 1.0f64.to_bits());
    assert_eq!(pixel_radius(2, 1), 0.5f64.to_bits());
    assert_eq!(pixel_radius(1, 4), 0.25f64.to_bits());
    assert_eq!(pixel_radius(10, 10), 0.1f64.to_bits());
    assert_eq!(pixel_radius(800, 600), 0.00125f64.to_bits());
    assert_eq!(pixel_radius(600, 800), 0.00125f64.to_bits());
    assert_eq!(pixel_radius(3, 2), (1.0f64 / 3.0).to_bits());
    assert_eq!(pixel_radius(1024, 7), 0.0009765625f64.to_bits());
}

#[test]
fn pixel_radius_of_no_image_is_infinite() {
    assert_eq!(pixel_radius(0, 0), f64::INFINITY.to_bits());
    assert_eq!(f64::from_bits(pixel_radius(0, 0)), radius_in_floating_point(0, 0));
}

#[test]
fn pixel_radius_agrees_with_the_division_of_numbers() {
    for side in 0usize..20000 {
        assert_eq!(
            f64::from_bits(pixel_radius(side, side / 2)),
            radius_in_floating_point(side, side / 2),
            "{:?}",
            side
        );
    }
    let mut seed: u64 = 0x2545f4914f6cdd1d;
    for _ in 0..20000 {
        seed ^= seed << 13;
        seed ^= seed >> 7;
        seed ^= seed << 17;
        let side = (seed >> (seed % 64)) as usize;
        assert_eq!(
            f64::from_bits(pixel_radius(3, side)),
            radius_in_floating_point(3, side),
            "{:?}",
            side
        );
    }
}

#[test]
fn pixel_radius_rounds_a_long_side_as_the_format_does() {
    let sides: Vec<u64> = vec![
        (1 << 53) - 1,
        1 << 53,
        (1 << 53) + 1,
        (1 << 53) + 2,
        (1 << 53) + 3,
        (1 << 54) + 2,
        (1 << 54) + 6,
        (1 << 60) + 127,
        (1 << 60) + 128,
        (1 << 60) + 129,
        (1 << 60) + 384,
        (1 << 63) - 1,
        1 << 63,
        (1 << 63) + 1024,
        (1 << 63) + 1025,
        (1 << 63) + 3072,
        u64::MAX - 2048,
        u64::MAX - 1024,
        u64::MAX - 1023,
        u64::MAX,
    ];
    for &side in &sides {
        if side > usize::MAX as u64 {
            continue;
        }
        assert_eq!(
            f64::from_bits(pixel_radius(side as usize, 7)),
            radius_in_floating_point(side as usize, 7),
            "{:?}",
            side
        );
    }
}

#[test]
fn reciprocal_agrees_with_the_division_of_numbers() {
    assert_eq!(reciprocal(0), f64::INFINITY.to_bits());
    assert_eq!(reciprocal(1 << 64), (1.0f64 / 18446744073709551616.0).to_bits());
    for power in 0..64 {
        let whole = 1u128 << power;
        assert_eq!(f64::from_bits(reciprocal(whole)), 1.0 / (whole as f64));
        let odd = whole * 3;
        if odd < (1 << 53) {
            assert_eq!(f64::from_bits(reciprocal(odd)), 1.0 / (odd as f64));
        }
    }
}
