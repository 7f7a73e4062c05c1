# expm_rust

Matrix exponential `exp(A)` by diagonal `[p/p]` Padé approximation with scaling and
squaring. The library in `src/` holds the exact and integer parts of the method,
each with a Verus contract:

- `number_theory`: Euclid's gcd as a spec, with Bezout's identity, Gauss's lemma and
  the uniqueness of lowest terms.
- `pade_coef`: `gcd`, the exact fraction type `Rational`, the Padé coefficients
  `c_k = c_(k-1) (p - k + 1) / (k (2p - k + 1))` as fractions in lowest terms
  (`compute_pade_array`), their closed form, and the table of `f64` bit patterns of
  the coefficients for the supported degrees 3, 4, 5, 6, 7, 9, 13.
- `float_bits`: correctly rounded (nearest, ties to even) conversion of a ratio of
  two `u128` to the bit pattern of an `f64`, by normalized binary long division,
  with its laws (exactness, monotonicity, dependence on the ratio only).
- `pade_expm`: the argument checks and the squaring schedule of the exponential.

`app/` holds the floating-point side: the `MatrixOps` trait, the generic
`pade_pp` evaluation, the `f64` coefficient table and the `oxiblas` and `nalgebra`
backends.
