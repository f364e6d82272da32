use raytracer::color::Color;
use raytracer::math::isqrt;

#[test]
fn gray_sets_every_channel() {
    let c = Color::gray(100);
    assert_eq!((c.r, c.g, c.b), (100, 100, 100));
    assert_eq!(Color::gray(0), Color { r: 0, g: 0, b: 0 });
    assert_eq!(Color::gray(255), Color { r: 255, g: 255, b: 255 });
}

#[test]
fn rgb_keeps_the_channels_apart() {
    let c = Color::rgb(1, 2, 3);
    assert_eq!(c.r, 1);
    assert_eq!(c.g, 2);
    assert_eq!(c.b, 3);
}

#[test]
fn isqrt_rounds_down() {
    assert_eq!(isqrt(0), 0);
    assert_eq!(isqrt(1), 1);
    assert_eq!(isqrt(2), 1);
    assert_eq!(isqrt(3), 1);
    assert_eq!(isqrt(4), 2);
    assert_eq!(isqrt(15), 3);
    assert_eq!(isqrt(16), 4);
    assert_eq!(isqrt(17), 4);
    assert_eq!(isqrt(65024), 254);
    assert_eq!(isqrt(65025), 255);
    assert_eq!(isqrt(130050), 360);
}

#[test]
fn isqrt_reaches_the_ends_of_its_range() {
    assert_eq!(isqrt(u64::MAX), 4294967295);
    assert_eq!(isqrt(4294967295 * 4294967295), 4294967295);
    assert_eq!(isqrt(4294967295 * 4294967295 - 1), 4294967294);
    assert_eq!(isqrt(1 << 62), 1 << 31);
}

#[test]
fn isqrt_brackets_every_small_number() {
    for n in 0u64..20000 {
        let r = isqrt(n);
        assert!(r * r <= n);
        assert!((r + 1) * (r + 1) > n);
    }
}

#[test]
fn blend_at_half_weight() {
    // red: sqrt((100^2 + 100^2) / 2) = 100, green: sqrt(50) = 7.07, blue: sqrt(12.5) = 3.5
    let c = Color::rgb(100, 0, 3).blend(&Color::rgb(100, 10, 4), 1, 2);
    assert_eq!(c, Color::rgb(100, 7, 3));
    // sqrt((100^2 + 200^2) / 2) = sqrt(25000) = 158.1
    assert_eq!(Color::gray(100).blend(&Color::gray(200), 1, 2), Color::gray(158));
    assert_eq!(Color::gray(200).blend(&Color::gray(100), 1, 2), Color::gray(158));
}

#[test]
fn blend_of_a_colour_with_itself_is_that_colour() {
    assert_eq!(Color::gray(100).blend(&Color::gray(100), 1, 2), Color::gray(100));
    for channel in 0u8..=255 {
        let color = Color::rgb(channel, 255 - channel, channel / 3);
        for &(num, den) in &[(0u32, 1u32), (1, 2), (1, 3), (2, 3), (1, 1), (7, 2), (5, u32::MAX)] {
            assert_eq!(color.blend(&color, num, den), color);
        }
    }
}

#[test]
fn blend_matches_the_root_of_the_mean_of_the_squares() {
    for a in 0u32..=255 {
        for b in (0u32..=255).step_by(5) {
            let expected = (((a as f64).powi(2) + (b as f64).powi(2)) * 0.5).sqrt() as u8;
            assert_eq!(Color::blend_component(a as u8, b as u8, 1, 2), expected);
        }
    }
}

#[test]
fn blend_is_not_the_plain_mean() {
    // sqrt((0 + 255^2) / 2) = 180.3, where the plain mean is 127
    assert_eq!(Color::gray(0).blend(&Color::gray(255), 1, 2), Color::gray(180));
    // sqrt((180^2 + 255^2) / 2) = sqrt(48712.5) = 220.7
    assert_eq!(Color::gray(180).blend(&Color::gray(255), 1, 2), Color::gray(220));
}

#[test]
fn blend_weighs_the_second_colour_by_its_share() {
    // sqrt((2 * 30^2 + 90^2) / 3) = sqrt(3300) = 57.4
    assert_eq!(Color::gray(30).blend(&Color::gray(90), 1, 3), Color::gray(57));
    // sqrt(255^2 / 4) = 127.5 and sqrt(3 * 255^2 / 4) = 220.8
    assert_eq!(Color::gray(0).blend(&Color::gray(255), 1, 4), Color::gray(127));
    assert_eq!(Color::gray(0).blend(&Color::gray(255), 3, 4), Color::gray(220));
}

#[test]
fn blend_stays_at_full_brightness() {
    assert_eq!(Color::gray(255).blend(&Color::gray(255), 1, 2), Color::gray(255));
    assert_eq!(Color::gray(255).blend(&Color::gray(255), 1, 1), Color::gray(255));
    assert_eq!(Color::gray(255).blend(&Color::gray(255), 0, 1), Color::gray(255));
    assert_eq!(Color::gray(255).blend(&Color::gray(255), 1, u32::MAX), Color::gray(255));
}

#[test]
fn blend_with_no_share_keeps_the_first_colour() {
    let first = Color::rgb(12, 200, 255);
    assert_eq!(first.blend(&Color::gray(255), 0, 1), first);
    assert_eq!(first.blend(&Color::gray(255), 0, 7), first);
}

#[test]
fn blend_with_the_whole_share_is_the_second_colour() {
    let first = Color::rgb(30, 40, 50);
    let second = Color::rgb(40, 30, 120);
    assert_eq!(first.blend(&second, 1, 1), second);
    assert_eq!(first.blend(&second, 5, 5), second);
}

#[test]
fn blend_share_above_one_counts_as_one() {
    let first = Color::rgb(30, 40, 50);
    let second = Color::rgb(40, 30, 120);
    assert_eq!(first.blend(&second, 9, 2), first.blend(&second, 1, 1));
    assert_eq!(first.blend(&second, 9, 2), second);
    assert_eq!(first.blend(&second, u32::MAX, 1), second);
}

#[test]
fn blend_lies_between_the_two_colours() {
    for a in (0u8..=255).step_by(3) {
        for b in (0u8..=255).step_by(7) {
            for num in 0u32..5 {
                let blended = Color::blend_component(a, b, num, 3);
                assert!(blended >= a.min(b));
                assert!(blended <= a.max(b));
            }
        }
    }
}

#[test]
fn blend_takes_the_largest_ratio_terms() {
    let c = Color::gray(3).blend(&Color::gray(255), u32::MAX - 1, u32::MAX);
    // (9 + 65025 * (MAX - 1)) / MAX = 65024.99 -> 65024, root 254.99
    assert_eq!(c, Color::gray(254));
    let d = Color::gray(0).blend(&Color::gray(255), 1, u32::MAX);
    assert_eq!(d, Color::gray(0));
    let e = Color::gray(255).blend(&Color::gray(0), 1, u32::MAX);
    // 65025 * (MAX - 1) / MAX = 65024.99 -> 65024, root 254.99
    assert_eq!(e, Color::gray(254));
}

#[test]
fn random_colours_are_not_all_alike() {
    let first = Color::random();
    let mut differs = false;
    for _ in 0..64 {
        if Color::random() != first {
            differs = true;
        }
    }
    assert!(differs);
}
