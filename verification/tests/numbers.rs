use dng_profiles::camera::{camera_profiles, GRAYSCALE_MIX_UNIT};
use dng_profiles::chroma::{
    bradford_d65_to_d50, d50_xyz, d65_xyz, gray_forward_matrix, mat3_mul, std_a_xyz,
    ADAPTATION_UNIT, WHITE_UNIT,
};
use dng_profiles::directory::{srational_from_floats, Value};
use dng_profiles::rational::{numerator_of, read_binary32, read_binary64, srational_pair, Binary};

/// CIE D50 white point in XYZ (Y=1). DNG PCS reference white.
const D50_XYZ_REF: [f64; 3] = [0.96422, 1.00000, 0.82521];

/// A forward matrix takes `(1,1,1)` to D50 where the matrix that it is made from
/// takes `(1,1,1)` to D65.
#[test]
fn forward_matrix_satisfies_d50_invariant_at_unit_input() {
    // Each column is D65/3, so that the matrix takes (1,1,1) to D65 exactly.
    let d65 = d65_xyz();
    let bmt: [i32; 9] = [
        d65[0], d65[0], d65[0], d65[1], d65[1], d65[1], d65[2], d65[2], d65[2],
    ];
    let unit = ADAPTATION_UNIT as f64 * WHITE_UNIT as f64 * 3.0;

    let fm = mat3_mul(&bradford_d65_to_d50(), &bmt);
    let fm_at_unit = [
        (fm[0] + fm[1] + fm[2]) as f64 / unit,
        (fm[3] + fm[4] + fm[5]) as f64 / unit,
        (fm[6] + fm[7] + fm[8]) as f64 / unit,
    ];

    for i in 0..3 {
        assert!(
            (fm_at_unit[i] - D50_XYZ_REF[i]).abs() < 1e-3,
            "FM @ (1,1,1)[{i}] = {} but expected D50_XYZ[{i}] = {}",
            fm_at_unit[i],
            D50_XYZ_REF[i],
        );
    }
}

#[test]
fn srational_round_trips_through_denom() {
    let (n, d) = srational_pair(1.5_f64.to_bits(), 10_000);
    assert_eq!(d, 10_000);
    assert_eq!(n, 15_000);
}

#[test]
fn negative_values_keep_sign() {
    let (n, _d) = srational_pair((-0.6789_f64).to_bits(), 10_000);
    assert_eq!(n, -6789);
}

/// The same conversion in floating point.
fn float_numerator(v: f64, denom: i32) -> i32 {
    let num = (v * denom as f64).round();
    num.clamp(i32::MIN as f64, i32::MAX as f64) as i32
}

#[test]
fn numerators_agree_with_floating_point() {
    let mut samples: Vec<f64> = vec![
        0.0,
        -0.0,
        1.0,
        -1.0,
        0.5,
        0.00005,
        -0.00005,
        0.00015,
        0.00025,
        1.00005,
        0.99995,
        0.1,
        0.2,
        0.3,
        1.0 / 3.0,
        2.0 / 3.0,
        214_748.3647,
        214_748.36475,
        -214_748.3648,
        -214_748.36485,
        1e9,
        -1e9,
        1e300,
        -1e300,
        f64::MAX,
        f64::MIN_POSITIVE,
        5e-324,
        f64::INFINITY,
        f64::NEG_INFINITY,
        f64::NAN,
        0.49999999999999994,
        4503599627370495.5,
        9007199254740993.0,
    ];
    // A walk over bit patterns of every size.
    let mut state: u64 = 0x9e37_79b9_7f4a_7c15;
    for _ in 0..20_000 {
        state = state.wrapping_mul(6364136223846793005).wrapping_add(1442695040888963407);
        samples.push(f64::from_bits(state));
        let small = (state >> 12) as f64 / (1u64 << 52) as f64;
        samples.push(small * 4.0 - 2.0);
    }
    for denom in [10_000, 1, -1, 0, 7, -10_000, i32::MAX, i32::MIN] {
        for &v in &samples {
            assert_eq!(
                srational_pair(v.to_bits(), denom),
                (float_numerator(v, denom), denom),
                "{v:?} over {denom}"
            );
        }
    }
}

#[test]
fn widening_changes_no_numerator() {
    let mut state: u32 = 12345;
    for _ in 0..20_000 {
        state = state.wrapping_mul(1664525).wrapping_add(1013904223);
        for bits in [state, (state >> 9) | 0x3f00_0000, (state >> 9) | 0xbf00_0000] {
            let wide = f32::from_bits(bits) as f64;
            assert_eq!(
                numerator_of(read_binary32(bits), 10_000),
                numerator_of(read_binary64(wide.to_bits()), 10_000)
            );
            assert_eq!(
                numerator_of(read_binary32(bits), 10_000),
                float_numerator(wide, 10_000)
            );
        }
    }
}

#[test]
fn bit_patterns_are_read() {
    assert_eq!(
        read_binary32(1.5_f32.to_bits()),
        Binary::Finite {
            negative: false,
            mantissa: 0xc0_0000,
            exponent: -23
        }
    );
    assert_eq!(
        read_binary64((-0.5_f64).to_bits()),
        Binary::Finite {
            negative: true,
            mantissa: 1 << 52,
            exponent: -53
        }
    );
    assert_eq!(
        read_binary32(f32::NEG_INFINITY.to_bits()),
        Binary::Infinite { negative: true }
    );
    assert_eq!(read_binary64(f64::NAN.to_bits()), Binary::NotANumber);
}

#[test]
fn floats_become_rationals_in_order() {
    let bits: Vec<u32> = [1.0_f32, -0.25, 0.00004, 3.0e9].iter().map(|v| v.to_bits()).collect();
    match srational_from_floats(&bits, 10_000) {
        Value::SRational(pairs) => assert_eq!(
            pairs,
            vec![
                (10_000, 10_000),
                (-2_500, 10_000),
                (0, 10_000),
                (i32::MAX, 10_000)
            ]
        ),
        _ => panic!("not rationals"),
    }
}

#[test]
fn products_are_exact() {
    let a = [1, 2, 3, 4, 5, 6, 7, 8, 9];
    let b = [9, 8, 7, 6, 5, 4, 3, 2, 1];
    assert_eq!(
        mat3_mul(&a, &b),
        [30, 24, 18, 84, 69, 54, 138, 114, 90]
    );
    let least = [i32::MIN; 9];
    assert_eq!(mat3_mul(&least, &least), [3 * (1i128 << 62); 9]);
}

#[test]
fn gray_profiles_take_the_unit_input_to_d50() {
    let white = d50_xyz();
    for profile in camera_profiles() {
        if let Some(mix) = profile.grayscale_mix {
            assert_eq!(mix.iter().sum::<i32>(), GRAYSCALE_MIX_UNIT);
            let m = gray_forward_matrix(&mix);
            for row in 0..3 {
                assert_eq!(
                    m[3 * row] + m[3 * row + 1] + m[3 * row + 2],
                    white[row] as i64 * GRAYSCALE_MIX_UNIT as i64
                );
            }
        }
    }
    assert_eq!(gray_forward_matrix(&[12, -6, 0])[..3], [1_157_064, -578_532, 0]);
    assert_eq!(std_a_xyz(), [109_850, 100_000, 35_585]);
}

#[test]
fn signs_are_symmetric() {
    for v in [0.25_f64, 0.00005, 1.99995, 1234.56785] {
        let (plus, _) = srational_pair(v.to_bits(), 10_000);
        let (minus, _) = srational_pair((-v).to_bits(), 10_000);
        assert_eq!(plus, -minus);
    }
    assert_eq!(srational_pair((-1e9_f64).to_bits(), 10_000).0, i32::MIN);
    assert_eq!(srational_pair(1e9_f64.to_bits(), 10_000).0, i32::MAX);
}

#[test]
fn numerators_keep_the_order_of_numbers() {
    let mut values: Vec<f64> = vec![
        f64::NEG_INFINITY,
        -1e300,
        -214_748.3648,
        -1.5,
        -0.000_05,
        -5e-324,
        -0.0,
        0.0,
        5e-324,
        0.000_049_999_999_999_999_996,
        0.000_05,
        0.333,
        214_748.364_7,
        1e300,
        f64::INFINITY,
    ];
    for k in 1..200u32 {
        values.push(f64::from(k) * 0.123_456_789 - 12.0);
        values.push(9_007_199_254_740_991.0 / 1e8 + f64::from(k) * 1e-9);
    }
    values.sort_by(f64::total_cmp);
    for pair in values.windows(2) {
        for denom in [1, 3, 10_000, i32::MAX] {
            let (low, _) = srational_pair(pair[0].to_bits(), denom);
            let (high, _) = srational_pair(pair[1].to_bits(), denom);
            assert!(low <= high, "{pair:?} over {denom}");
            let (low, _) = srational_pair(pair[0].to_bits(), -denom);
            let (high, _) = srational_pair(pair[1].to_bits(), -denom);
            assert!(low >= high, "{pair:?} over -{denom}");
        }
    }
}
