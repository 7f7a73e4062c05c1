use expm_rust::float_bits::u128_div_to_f64_bits;
use expm_rust::pade_coef::{
    compute_pade_array, gcd, pade_coeffs_bits, rational_arr_to_f64_bits, Rational,
};

fn u128_div_to_f64(num: u128, den: u128) -> f64 {
    f64::from_bits(u128_div_to_f64_bits(num, den))
}

fn assert_approx_eq(actual: f64, expected: f64) {
    let margin = expected * f64::EPSILON * 2.0;
    let diff = (actual - expected).abs();
    assert!(
        diff <= margin,
        "values are not approximately equal: actual {} expected {} diff {} margin {}",
        actual,
        expected,
        diff,
        margin
    );
}

#[test]
fn test_const_evaluation() {
    let res: f64 = u128_div_to_f64(10, 2);
    assert_eq!(res, 5.0);
}

#[test]
fn test_edge_cases() {
    // Divide by zero
    assert_eq!(u128_div_to_f64(1, 0), f64::INFINITY);
    assert_eq!(u128_div_to_f64(u128::MAX, 0), f64::INFINITY);

    // Zero numerator
    assert_eq!(u128_div_to_f64(0, 1), 0.0);
    assert_eq!(u128_div_to_f64(0, u128::MAX), 0.0);
}

#[test]
fn test_exact_integers() {
    assert_eq!(u128_div_to_f64(10, 2), 5.0);
    assert_eq!(u128_div_to_f64(100, 10), 10.0);
    assert_eq!(u128_div_to_f64(1, 1), 1.0);
}

#[test]
fn test_exact_fractions() {
    assert_eq!(u128_div_to_f64(1, 2), 0.5);
    assert_eq!(u128_div_to_f64(1, 4), 0.25);
    assert_eq!(u128_div_to_f64(3, 4), 0.75);
}

#[test]
fn test_powers_of_two() {
    let num = 1u128 << 100;
    let den = 1u128 << 50;

    // 2^100 / 2^50 = 2^50
    assert_eq!(u128_div_to_f64(num, den), (1u64 << 50) as f64);

    // 2^50 / 2^100 = 2^-50
    let res = u128_div_to_f64(den, num);
    assert_eq!(res, 1.0 / ((1u64 << 50) as f64));
}

#[test]
fn test_large_numbers() {
    let max = u128::MAX;
    let half = max / 2;

    assert_approx_eq(u128_div_to_f64(max, 1), max as f64);
    assert_approx_eq(u128_div_to_f64(max, max), 1.0);
    assert_approx_eq(u128_div_to_f64(max, half), 2.0);
}

#[test]
fn test_complex_truncation_precision() {
    let num: u128 = 123456789123456789;
    let den: u128 = 987654321987654321;

    let expected = (num as f64) / (den as f64);
    let actual = u128_div_to_f64(num, den);

    assert_approx_eq(actual, expected);
}

#[test]
fn test_rounding_matches_hardware_division() {
    // Both operands are exact in f64, so IEEE division rounds the same quotient.
    let pairs: [(u128, u128); 8] = [
        (1, 3),
        (2, 3),
        (1, 10),
        (7, 9),
        (123456789, 1000),
        ((1u128 << 53) - 1, 3),
        (1, (1u128 << 52) + 1),
        (999_999_937, 1_000_000_007),
    ];
    for &(n, d) in pairs.iter() {
        assert_eq!(u128_div_to_f64(n, d), (n as f64) / (d as f64), "{} / {}", n, d);
    }
}

#[test]
fn test_ties_round_to_even() {
    // 2^53 + 1 lies halfway between 2^53 and 2^53 + 2: the even significand wins.
    assert_eq!(u128_div_to_f64((1u128 << 53) + 1, 1), 9007199254740992.0);
    // 2^53 + 3 lies halfway between 2^53 + 2 and 2^53 + 4: rounds up to the even one.
    assert_eq!(u128_div_to_f64((1u128 << 53) + 3, 1), 9007199254740996.0);
    // Just above the halfway point rounds up.
    assert_eq!(u128_div_to_f64((1u128 << 54) + 3, 2), 9007199254740994.0);
}

#[test]
fn test_rounding_carries_into_exponent() {
    // 2^54 - 1 rounds up to 2^54, which needs the next exponent.
    assert_eq!(u128_div_to_f64((1u128 << 54) - 1, 1), 18014398509481984.0);
}

#[test]
fn test_value_only_depends_on_ratio() {
    assert_eq!(u128_div_to_f64_bits(1, 3), u128_div_to_f64_bits(7, 21));
    assert_eq!(u128_div_to_f64_bits(5, 8), u128_div_to_f64_bits(5 << 60, 8 << 60));
}

#[test]
fn test_negative_power_of_two() {
    // 1 / 2^127 = 2^-127 is exact: biased exponent 896, empty fraction.
    assert_eq!(u128_div_to_f64_bits(1, 1u128 << 127), 0x3800_0000_0000_0000);
    assert_eq!(u128_div_to_f64(1, 1u128 << 127), 2f64.powi(-127));
}

#[test]
fn test_gcd() {
    assert_eq!(gcd(12, 18), 6);
    assert_eq!(gcd(18, 12), 6);
    assert_eq!(gcd(0, 5), 5);
    assert_eq!(gcd(7, 0), 7);
    assert_eq!(gcd(0, 0), 0);
    assert_eq!(gcd(17, 5), 1);
    assert_eq!(gcd(u128::MAX, 3), 3);
}

#[test]
fn test_rational_new_reduces() {
    let r = Rational::new(6, 8);
    assert_eq!((r.num, r.den), (3, 4));
    let r = Rational::new(0, 5);
    assert_eq!((r.num, r.den), (0, 1));
    let r = Rational::new(5, 0);
    assert_eq!((r.num, r.den), (1, 0));
    let r = Rational::new(3, 4);
    let again = Rational::new(r.num, r.den);
    assert_eq!((again.num, again.den), (3, 4));
}

#[test]
fn test_rational_mul_int() {
    let r = Rational::new(1, 2).mul_int(4, 6);
    assert_eq!((r.num, r.den), (1, 3));
    let r = Rational::new(3, 7).mul_int(7, 3);
    assert_eq!((r.num, r.den), (1, 1));
}

#[test]
fn test_compute_pade_array_degree_3() {
    let arr = compute_pade_array::<3, 2>();
    assert_eq!((arr[0].num, arr[0].den), (1, 10));
    assert_eq!((arr[1].num, arr[1].den), (1, 120));
}

#[test]
fn test_compute_pade_array_degree_4_padded() {
    let arr = compute_pade_array::<4, 5>();
    assert_eq!((arr[0].num, arr[0].den), (3, 28));
    assert_eq!((arr[1].num, arr[1].den), (1, 84));
    assert_eq!((arr[2].num, arr[2].den), (1, 1680));
    assert_eq!((arr[3].num, arr[3].den), (0, 1));
    assert_eq!((arr[4].num, arr[4].den), (0, 1));
}

#[test]
fn test_compute_pade_array_degree_13() {
    let arr = compute_pade_array::<13, 12>();
    let expected: [(u128, u128); 12] = [
        (3, 25),
        (11, 600),
        (11, 5520),
        (3, 18400),
        (1, 96600),
        (1, 1932000),
        (1, 48944000),
        (1, 1585785600),
        (1, 67395888000),
        (1, 3953892096000),
        (1, 355850288640000),
        (1, 64764752532480000),
    ];
    for i in 0..12 {
        assert_eq!((arr[i].num, arr[i].den), expected[i]);
    }
}

#[test]
fn test_rational_arr_to_f64_bits() {
    let bits = rational_arr_to_f64_bits([Rational::new(1, 10), Rational::new(3, 4)]);
    assert_eq!(f64::from_bits(bits[0]), 0.1);
    assert_eq!(f64::from_bits(bits[1]), 0.75);
}

#[test]
fn test_pade_coeffs_bits_table() {
    for deg in 0..=14usize {
        let bits = pade_coeffs_bits(deg);
        let supported = [3, 4, 5, 6, 7, 9, 13].contains(&deg);
        if supported {
            assert_eq!(bits.len(), deg - 1);
        } else {
            assert!(bits.is_empty());
        }
    }
    let c6: Vec<f64> = pade_coeffs_bits(6).into_iter().map(f64::from_bits).collect();
    assert_eq!(c6[0], 5.0 / 44.0);
    assert_eq!(c6[1], 1.0 / 66.0);
    let c13: Vec<f64> = pade_coeffs_bits(13).into_iter().map(f64::from_bits).collect();
    assert_eq!(c13[0], 3.0 / 25.0);
    assert_eq!(c13[11], 1.0 / 64764752532480000.0);
}

#[test]
fn test_conversion_is_monotone() {
    let ratios: [(u128, u128); 7] = [
        (1, 1u128 << 100),
        (1, 3),
        (1, 2),
        (2, 3),
        (1, 1),
        ((1u128 << 54) - 1, 1),
        (u128::MAX, 1),
    ];
    for w in ratios.windows(2) {
        let (n1, d1) = w[0];
        let (n2, d2) = w[1];
        assert!(u128_div_to_f64_bits(n1, d1) <= u128_div_to_f64_bits(n2, d2));
    }
}
