use vstd::prelude::*;

use crate::pade_coef::is_supported_degree;
use crate::traits::MathError;

verus! {

/// Whether the exponential has an evaluation scheme for `pol_deg`:
/// one of 3, 4, 5, 6, 7, 9, 13.
pub fn is_supported_pade_degree(pol_deg: usize) -> (b: bool)
    ensures
        b == is_supported_degree(pol_deg as nat),
{
    pol_deg == 3 || pol_deg == 4 || pol_deg == 5 || pol_deg == 6 || pol_deg == 7 || pol_deg == 9
        || pol_deg == 13
}

/// The argument checks of the Padé matrix exponential, in their order: the matrix
/// must be square (else `NotSquare`), and the degree must be a supported one
/// (3, 4, 5, 6, 7, 9, 13) with a nonempty coefficient list (else `InvalidPolDeg`).
/// A nonempty coefficient list for a supported degree must hold at least
/// `pol_deg - 1` coefficients, as the evaluation reads that many.
pub fn validate_pade_args(rows: usize, cols: usize, pol_deg: usize, coef_len: usize) -> (r: Result<
    (),
    MathError,
>)
    requires
        rows == cols && is_supported_degree(pol_deg as nat) && coef_len > 0 ==> coef_len
            >= pol_deg - 1,
    ensures
        r == if rows != cols {
            Err(MathError::NotSquare { rows, cols })
        } else if !is_supported_degree(pol_deg as nat) || coef_len == 0 {
            Err(MathError::InvalidPolDeg(pol_deg))
        } else {
            Ok(())
        },
{
    if rows != cols {
        return Err(MathError::NotSquare { rows, cols });
    }
    if !is_supported_pade_degree(pol_deg) || coef_len == 0 {
        return Err(MathError::InvalidPolDeg(pol_deg));
    }
    Ok(())
}

/// The squaring phase of scaling and squaring: `pairs` rounds of two squarings, then
/// one more squaring when `extra` holds; `s` squarings in all, so the Padé result
/// `R` of `2^-s A` is raised to `R^(2^s)`.
pub fn squaring_schedule(s: u32) -> (r: (u32, bool))
    ensures
        r.0 == s / 2,
        r.1 == (s % 2 == 1),
        2 * r.0 + (if r.1 {
            1int
        } else {
            0int
        }) == s,
{
    let pairs = s / 2;
    let extra = s & 1 != 0;
    proof {
        assert((s & 1u32) == s % 2) by (bit_vector);
    }
    (pairs, extra)
}

} // verus!
