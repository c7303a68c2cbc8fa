use mandelbrot::color::{channel, colorize, Rgba, BLUE_FACTOR, GREEN_FACTOR, OPAQUE, RED_FACTOR};

#[test]
fn factors_are_the_documented_ones() {
    assert_eq!(RED_FACTOR, 7727);
    assert_eq!(GREEN_FACTOR, 6151);
    assert_eq!(BLUE_FACTOR, 5107);
    assert_eq!(OPAQUE, 255);
}

#[test]
fn count_zero_is_opaque_black() {
    assert_eq!(colorize(0), Rgba { r: 0, g: 0, b: 0, a: 255 });
}

#[test]
fn count_one_shows_the_factors() {
    assert_eq!(colorize(1), Rgba { r: 47, g: 7, b: 243, a: 255 });
}

#[test]
fn count_two_hundred_exact() {
    // 200 * 7727 = 1545400, 200 * 6151 = 1230200, 200 * 5107 = 1021400
    assert_eq!(colorize(200), Rgba { r: 184, g: 120, b: 216, a: 255 });
}

#[test]
fn every_count_up_to_255_follows_the_formula() {
    for k in 0u32..=255 {
        let c = colorize(k);
        assert_eq!(u32::from(c.r), (k * 7727) % 256, "red of {k}");
        assert_eq!(u32::from(c.g), (k * 6151) % 256, "green of {k}");
        assert_eq!(u32::from(c.b), (k * 5107) % 256, "blue of {k}");
        assert_eq!(c.a, 255, "alpha of {k}");
    }
}

#[test]
fn counts_256_apart_share_a_colour() {
    for k in 0u32..=600 {
        assert_eq!(colorize(k), colorize(k + 256), "{k} and {}", k + 256);
    }
    assert_eq!(colorize(256), colorize(0));
}

#[test]
fn distinct_counts_below_256_differ() {
    // the factors are odd, so one period holds no colour twice
    for a in 0u32..256 {
        for b in (a + 1)..256 {
            assert_ne!(colorize(a), colorize(b), "{a} and {b}");
        }
    }
}

#[test]
fn largest_count_does_not_overflow() {
    let k = u32::MAX;
    let c = colorize(k);
    assert_eq!(u64::from(c.r), (u64::from(k) * 7727) % 256);
    assert_eq!(u64::from(c.g), (u64::from(k) * 6151) % 256);
    assert_eq!(u64::from(c.b), (u64::from(k) * 5107) % 256);
}

#[test]
fn channel_takes_any_factor() {
    assert_eq!(channel(3, 100), 44);
    assert_eq!(channel(0, 12345), 0);
    assert_eq!(channel(255, 255), 1);
}
