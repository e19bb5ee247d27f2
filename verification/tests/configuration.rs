use grid_astar::ratio::{check_ratio, expected_obstacles};
use grid_astar::{GridConfig, InvalidArgument};

fn hardware_count(size: i32, ratio: f64) -> usize {
    let area = (size as i64 * size as i64) as f64;
    (area * ratio).floor() as usize
}

#[test]
fn expected_count_for_size_10_ratio_0_3_is_30() {
    let config = GridConfig::new(10, 0.3f64.to_bits(), 7).unwrap();
    assert_eq!(config.expected_obstacle_count(), 30);
}

#[test]
fn expected_count_exact_values() {
    assert_eq!(expected_obstacles(10, 0.1f64.to_bits()), 10);
    assert_eq!(expected_obstacles(10, 0.09f64.to_bits()), 9);
    assert_eq!(expected_obstacles(10, 0.27f64.to_bits()), 27);
    assert_eq!(expected_obstacles(10, 0.29f64.to_bits()), 28);
    assert_eq!(expected_obstacles(123, 0.1f64.to_bits()), 1512);
    assert_eq!(expected_obstacles(4999, 0.3f64.to_bits()), 7497000);
    assert_eq!(expected_obstacles(5000, 0.49999999f64.to_bits()), 12499999);
    assert_eq!(expected_obstacles(10, 0.0f64.to_bits()), 0);
    assert_eq!(expected_obstacles(10, (-0.0f64).to_bits()), 0);
}

#[test]
fn expected_count_rounds_the_product_before_the_floor() {
    // 100 * 0.3 lies below 30 as a real number and is 30 as a binary64 product.
    assert_eq!(expected_obstacles(10, 0.3f64.to_bits()), 30);
    // 100 * 0.29 is 28.999999999999996 as a binary64 product.
    assert_eq!(expected_obstacles(10, 0.29f64.to_bits()), 28);
}

#[test]
fn expected_count_agrees_with_binary64_arithmetic() {
    let sizes = [10, 11, 13, 64, 100, 127, 999, 1000, 1024, 2048, 4096, 4999, 5000];
    let mut state: u64 = 0x9E37_79B9_7F4A_7C15;
    for &size in sizes.iter() {
        for k in 0..2000u64 {
            state = state.wrapping_mul(6364136223846793005).wrapping_add(1442695040888963407);
            let ratio = if k % 4 == 0 {
                (k as f64) / 4000.0
            } else if k % 4 == 1 {
                ((state >> 11) as f64) / ((1u64 << 53) as f64) * 0.5
            } else if k % 4 == 2 {
                ((state >> 40) as f64) / ((size as f64) * (size as f64))
            } else {
                f64::from_bits(state % 0x3FE0_0000_0000_0000)
            };
            if !(0.0..0.5).contains(&ratio) {
                continue;
            }
            assert_eq!(expected_obstacles(size, ratio.to_bits()), hardware_count(size, ratio), "{} {}", size, ratio);
        }
    }
}

#[test]
fn expected_count_agrees_near_whole_numbers() {
    for size in [10, 33, 100, 1000, 5000] {
        let area = (size as f64) * (size as f64);
        for count in 0..200u64 {
            let exact = (count as f64) / area;
            let mut bits = exact.to_bits().saturating_sub(3);
            for _ in 0..7 {
                let ratio = f64::from_bits(bits);
                if (0.0..0.5).contains(&ratio) {
                    assert_eq!(expected_obstacles(size, bits), hardware_count(size, ratio), "{} {}", size, ratio);
                }
                bits += 1;
            }
        }
    }
}

#[test]
fn expected_count_of_tiny_ratios_is_zero() {
    assert_eq!(expected_obstacles(5000, 1), 0);
    assert_eq!(expected_obstacles(5000, f64::MIN_POSITIVE.to_bits()), 0);
    assert_eq!(expected_obstacles(5000, 1.0e-9f64.to_bits()), 0);
    assert_eq!(expected_obstacles(5000, 4.0e-8f64.to_bits()), 1);
}

#[test]
fn ratio_range_is_zero_to_below_one_half() {
    assert!(check_ratio(0.0f64.to_bits()));
    assert!(check_ratio((-0.0f64).to_bits()));
    assert!(check_ratio(0.3f64.to_bits()));
    assert!(check_ratio(0.49999999999999994f64.to_bits()));
    assert!(check_ratio(f64::MIN_POSITIVE.to_bits()));
    assert!(check_ratio(1));
    assert!(!check_ratio(0.5f64.to_bits()));
    assert!(!check_ratio(1.0f64.to_bits()));
    assert!(!check_ratio((-0.1f64).to_bits()));
    assert!(!check_ratio((-f64::MIN_POSITIVE).to_bits()));
    assert!(!check_ratio(f64::NAN.to_bits()));
    assert!(!check_ratio((-f64::NAN).to_bits()));
    assert!(!check_ratio(f64::INFINITY.to_bits()));
    assert!(!check_ratio(f64::NEG_INFINITY.to_bits()));
}

#[test]
fn ratio_check_agrees_with_binary64_comparison() {
    let mut state: u64 = 12345;
    for _ in 0..200000 {
        state = state.wrapping_mul(6364136223846793005).wrapping_add(1442695040888963407);
        let ratio = f64::from_bits(state);
        assert_eq!(check_ratio(state), (0.0..0.5).contains(&ratio));
    }
}

#[test]
fn config_accepts_the_sizes_from_10_to_5000() {
    let bits = 0.25f64.to_bits();
    assert!(GridConfig::new(10, bits, 0).is_ok());
    assert!(GridConfig::new(5000, bits, 0).is_ok());
    assert_eq!(GridConfig::new(9, bits, 0).err(), Some(InvalidArgument::SizeOutOfRange));
    assert_eq!(GridConfig::new(5001, bits, 0).err(), Some(InvalidArgument::SizeOutOfRange));
    assert_eq!(GridConfig::new(0, bits, 0).err(), Some(InvalidArgument::SizeOutOfRange));
    assert_eq!(GridConfig::new(-10, bits, 0).err(), Some(InvalidArgument::SizeOutOfRange));
    assert_eq!(GridConfig::new(i32::MAX, bits, 0).err(), Some(InvalidArgument::SizeOutOfRange));
}

#[test]
fn config_rejects_ratios_outside_the_range() {
    assert_eq!(GridConfig::new(10, 0.5f64.to_bits(), 0).err(), Some(InvalidArgument::RatioOutOfRange));
    assert_eq!(GridConfig::new(10, (-0.25f64).to_bits(), 0).err(), Some(InvalidArgument::RatioOutOfRange));
    assert_eq!(GridConfig::new(10, f64::NAN.to_bits(), 0).err(), Some(InvalidArgument::RatioOutOfRange));
    assert!(GridConfig::new(10, 0.0f64.to_bits(), 0).is_ok());
}

#[test]
fn config_reports_the_size_before_the_ratio() {
    assert_eq!(GridConfig::new(5, 0.9f64.to_bits(), 0).err(), Some(InvalidArgument::SizeOutOfRange));
}

#[test]
fn config_keeps_its_arguments_and_derives_the_corners() {
    let config = GridConfig::new(37, 0.125f64.to_bits(), -99).unwrap();
    assert_eq!(config.size(), 37);
    assert_eq!(f64::from_bits(config.obstacle_ratio_bits()), 0.125);
    assert_eq!(config.seed(), -99);
    assert_eq!(config.start(), (0, 0));
    assert_eq!(config.goal(), (36, 36));
    assert_eq!(config.expected_obstacle_count(), 171);
}

#[test]
fn expected_count_rounds_ties_to_even() {
    // With 144 cells and a ratio of (37 * 2^50 - 4) / 9 / 2^54 the exact
    // product is 37 - 2^-48, half way between 37 - 2^-47 and 37.
    let up = ((37u64 << 50) - 4) / 9;
    assert_eq!(up * 9, (37u64 << 50) - 4);
    let bits = (1021u64 << 52) | (up - (1u64 << 52));
    assert_eq!(f64::from_bits(bits) * 144.0, 37.0);
    assert_eq!(expected_obstacles(12, bits), 37);
    assert_eq!(expected_obstacles(12, bits - 1), 36);
    assert_eq!(expected_obstacles(12, bits + 1), 37);
    // With a ratio of (39 * 2^50 - 12) / 9 / 2^54 the exact product is
    // 39 - 3 * 2^-48, half way between 39 - 2^-46 and 39 - 2^-47.
    let down = ((39u64 << 50) - 12) / 9;
    assert_eq!(down * 9, (39u64 << 50) - 12);
    let bits = (1021u64 << 52) | (down - (1u64 << 52));
    assert_eq!(f64::from_bits(bits) * 144.0, 39.0 - 2.0f64.powi(-46));
    assert_eq!(expected_obstacles(12, bits), 38);
    assert_eq!(expected_obstacles(12, bits), hardware_count(12, f64::from_bits(bits)));
}

#[test]
fn expected_count_agrees_on_every_exponent() {
    for exponent in 0..1022u64 {
        for fraction in [0u64, 1, 0x8_0000_0000_0000, 0xF_FFFF_FFFF_FFFF, 0x3_3333_3333_3333, 0x9_9999_9999_999A] {
            let bits = (exponent << 52) | fraction;
            for size in [10, 4097, 5000] {
                assert_eq!(expected_obstacles(size, bits), hardware_count(size, f64::from_bits(bits)));
            }
        }
    }
}
