use house_automation::color::hs_to_srgb_xy;
use house_automation::double::Double;

fn d(value: f64) -> Double {
    Double::from_bits(value.to_bits())
}

fn f(value: Double) -> f64 {
    f64::from_bits(value.to_bits())
}

/// The same bits, where any two values that are no number count as the same.
fn same(found: Double, expected: f64) -> bool {
    if expected.is_nan() {
        f(found).is_nan()
    } else {
        found.to_bits() == expected.to_bits()
    }
}

fn special_values() -> Vec<f64> {
    let mut values = Vec::new();
    for value in [
        0.0,
        1.0,
        0.1,
        2.0 / 3.0,
        254.0,
        1_000_000.0,
        f64::MIN_POSITIVE,
        f64::MIN_POSITIVE / 8.0,
        f64::from_bits(1),
        f64::from_bits(0x000f_ffff_ffff_ffff),
        f64::from_bits(0x3fef_ffff_ffff_ffff),
        f64::MAX,
        f64::EPSILON,
        f64::INFINITY,
    ] {
        values.push(value);
        values.push(-value);
    }
    values.push(f64::NAN);
    values
}

fn check(a: f64, b: f64) {
    assert!(same(d(a).plus(d(b)), a + b), "{a:e} + {b:e}");
    assert!(same(d(a).minus(d(b)), a - b), "{a:e} - {b:e}");
    assert!(same(d(a).times(d(b)), a * b), "{a:e} * {b:e}");
    assert!(same(d(a).over(d(b)), a / b), "{a:e} / {b:e}");
    assert!(same(d(a).rem(d(b)), a % b), "{a:e} % {b:e}");
    assert!(same(d(a).rem_euclid(d(b)), a.rem_euclid(b)), "{a:e} mod {b:e}");
    assert_eq!(d(a).lt(d(b)), a < b);
    assert_eq!(d(a).le(d(b)), a <= b);
    assert_eq!(d(a).equals(d(b)), a == b);
    assert_eq!(d(a) == d(b), a == b);
}

#[test]
fn arithmetic_is_that_of_the_machine_on_special_values() {
    for a in special_values() {
        for b in special_values() {
            check(a, b);
        }
        assert!(same(d(a).neg(), -a));
        assert!(same(d(a).abs(), a.abs()));
        assert_eq!(d(a).is_finite(), a.is_finite());
        assert_eq!(d(a).is_nan(), a.is_nan());
        assert_eq!(d(a).round_to_u64(), a.round() as u64);
    }
}

#[test]
fn arithmetic_is_that_of_the_machine_on_many_values() {
    let mut seed: u64 = 0x2545_f491_4f6c_dd1d;
    let mut next = || {
        seed ^= seed << 13;
        seed ^= seed >> 7;
        seed ^= seed << 17;
        seed
    };
    for _ in 0..20_000 {
        let (a, b) = (next(), next());
        check(f64::from_bits(a), f64::from_bits(b));
        let near = (b & 0x000f_ffff_ffff_ffff) | (a & 0xfff0_0000_0000_0000);
        check(f64::from_bits(a), f64::from_bits(near));
        let whole = (a % 1_000_000) as f64 / 7.0;
        check(whole, (b % 1_000_000) as f64 / 3.0);
        assert_eq!(d(whole).round_to_u64(), whole.round() as u64);
    }
}

#[test]
fn whole_numbers_are_rounded_to_the_nearest() {
    for n in [
        0,
        1,
        1_000,
        (1 << 53) - 1,
        1 << 53,
        (1 << 53) + 1,
        (1 << 54) + 2,
        (1 << 54) + 6,
        u64::MAX,
    ] {
        assert!(same(Double::from_u64(n), n as f64));
    }
    for n in [0, -1, i32::MIN, i32::MAX, 7_200] {
        assert!(same(Double::from_i32(n), f64::from(n)));
    }
    assert_eq!(d(0.5).round_to_u64(), 1);
    assert_eq!(d(2.5).round_to_u64(), 3);
    assert_eq!(d(-3.0).round_to_u64(), 0);
}

#[test]
fn clamping_keeps_a_value_between_its_bounds() {
    for (value, expected) in [(0.2, 0.5), (0.7, 0.7), (9.0, 1.0)] {
        assert!(same(d(value).clamp(d(0.5), d(1.0)), expected));
    }
}

/// The conversion with the machine's own power function.
fn reference_xy(hue: f64, saturation: f64) -> (f64, f64) {
    let chroma = saturation;
    let sector = hue / 60.0;
    let second = chroma * (1.0 - (sector % 2.0 - 1.0).abs());
    let (red, green, blue) = match sector as u32 {
        0 => (chroma, second, 0.0),
        1 => (second, chroma, 0.0),
        2 => (0.0, chroma, second),
        3 => (0.0, second, chroma),
        4 => (second, 0.0, chroma),
        _ => (chroma, 0.0, second),
    };
    let base = 1.0 - chroma;
    let linear = |channel: f64| {
        let channel = channel + base;
        if channel <= 0.04045 {
            channel / 12.92
        } else {
            ((channel + 0.055) / 1.055).powf(2.4)
        }
    };
    let (red, green, blue) = (linear(red), linear(green), linear(blue));
    let x = 0.412_456_4 * red + 0.357_576_1 * green + 0.180_437_5 * blue;
    let y = 0.212_672_9 * red + 0.715_152_2 * green + 0.072_175 * blue;
    let z = 0.019_333_9 * red + 0.119_192 * green + 0.950_304_1 * blue;
    (x / (x + y + z), y / (x + y + z))
}

#[test]
fn hue_and_saturation_give_chromaticity_coordinates() {
    for hue in 0..36 {
        for saturation in 0..=10 {
            let (hue, saturation) = (f64::from(hue) * 10.0, f64::from(saturation) / 10.0);
            let (x, y) = hs_to_srgb_xy(d(hue), d(saturation));
            let (expected_x, expected_y) = reference_xy(hue, saturation);
            assert!((f(x) - expected_x).abs() < 1e-12, "{hue} {saturation}");
            assert!((f(y) - expected_y).abs() < 1e-12, "{hue} {saturation}");
        }
    }
}

#[test]
fn decimals_are_exact() {
    assert_eq!(d(0.75).decimal_text(), "75e-2");
    assert_eq!(d(-2_700.0).decimal_text(), "-2700e-0");
    assert_eq!(d(0.0).decimal_text(), "0e-0");
    assert_eq!(d(-0.0).decimal_text(), "-0e-0");
    assert_eq!(d(6.0).decimal_text(), "6e-0");
    assert_eq!(d(1e22).decimal_text(), "10000000000000000000000e-0");
    assert_eq!(
        d(0.1).decimal_text(),
        "1000000000000000055511151231257827021181583404541015625e-55"
    );
    for value in special_values() {
        if value.is_finite() {
            let read: f64 = d(value).decimal_text().parse().unwrap();
            assert_eq!(read.to_bits(), value.to_bits());
        }
    }
    for n in 0..2_000_u64 {
        let value = f64::from_bits(0x3f00_0000_0000_0000 + n * 0x0000_2357_1113_1719);
        let read: f64 = d(value).decimal_text().parse().unwrap();
        assert_eq!(read.to_bits(), value.to_bits());
    }
}
