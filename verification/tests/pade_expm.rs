use expm_rust::pade_expm::{is_supported_pade_degree, squaring_schedule, validate_pade_args};
use expm_rust::MathError;

#[test]
fn test_validate_not_square() {
    assert_eq!(
        validate_pade_args(2, 3, 6, 5),
        Err(MathError::NotSquare { rows: 2, cols: 3 })
    );
    // The shape is checked before the degree.
    assert_eq!(
        validate_pade_args(3, 2, 1, 0),
        Err(MathError::NotSquare { rows: 3, cols: 2 })
    );
}

#[test]
fn test_validate_degree_out_of_range() {
    assert_eq!(validate_pade_args(2, 2, 2, 1), Err(MathError::InvalidPolDeg(2)));
    assert_eq!(validate_pade_args(2, 2, 14, 13), Err(MathError::InvalidPolDeg(14)));
    assert_eq!(validate_pade_args(2, 2, 0, 0), Err(MathError::InvalidPolDeg(0)));
}

#[test]
fn test_validate_missing_coefficients() {
    assert_eq!(validate_pade_args(4, 4, 8, 0), Err(MathError::InvalidPolDeg(8)));
    assert_eq!(validate_pade_args(4, 4, 6, 0), Err(MathError::InvalidPolDeg(6)));
}

#[test]
fn test_validate_ok() {
    for &deg in [3usize, 4, 5, 6, 7, 9, 13].iter() {
        assert_eq!(validate_pade_args(5, 5, deg, deg - 1), Ok(()));
    }
}

#[test]
fn test_squaring_schedule() {
    assert_eq!(squaring_schedule(0), (0, false));
    assert_eq!(squaring_schedule(1), (0, true));
    assert_eq!(squaring_schedule(6), (3, false));
    assert_eq!(squaring_schedule(7), (3, true));
    for s in 0..100u32 {
        let (pairs, extra) = squaring_schedule(s);
        assert_eq!(2 * pairs + extra as u32, s);
    }
}

#[test]
fn test_validate_unsupported_degrees() {
    for &deg in [8usize, 10, 11, 12].iter() {
        assert_eq!(validate_pade_args(3, 3, deg, 12), Err(MathError::InvalidPolDeg(deg)));
        assert_eq!(validate_pade_args(3, 3, deg, 0), Err(MathError::InvalidPolDeg(deg)));
    }
}

#[test]
fn test_is_supported_pade_degree() {
    let supported: Vec<usize> = (0..20usize).filter(|&d| is_supported_pade_degree(d)).collect();
    assert_eq!(supported, vec![3, 4, 5, 6, 7, 9, 13]);
}
