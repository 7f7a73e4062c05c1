use vstd::arithmetic::div_mod::*;
use vstd::arithmetic::mul::*;
use vstd::prelude::*;

use crate::float_bits::{f64_bits_of_ratio, u128_div_to_f64_bits};

use crate::number_theory::{
    divides,
    lemma_common_divisor_divides_gcd,
    lemma_gcd_divides,
    lemma_gcd_quotients_coprime,
    lemma_lowest_terms_unique,
    spec_gcd,
};

verus! {

/// Euclid's algorithm on 128-bit integers.
pub fn gcd(a: u128, b: u128) -> (g: u128)
    ensures
        g == spec_gcd(a as nat, b as nat),
        divides(g as nat, a as nat),
        divides(g as nat, b as nat),
        forall|d: nat|
            #![trigger divides(d, g as nat)]
            divides(d, a as nat) && divides(d, b as nat) ==> divides(d, g as nat),
{
    let mut x = a;
    let mut y = b;
    while y != 0
        invariant
            spec_gcd(x as nat, y as nat) == spec_gcd(a as nat, b as nat),
        decreases y,
    {
        let t = y;
        y = x % y;
        x = t;
    }
    proof {
        lemma_gcd_divides(a as nat, b as nat);
        assert forall|d: nat| divides(d, a as nat) && divides(d, b as nat) implies #[trigger] divides(
            d,
            x as nat,
        ) by {
            if d > 0 {
                lemma_common_divisor_divides_gcd(a as nat, b as nat, d);
            }
        }
    }
    x
}

/// The fraction `num / den` in lowest terms: both divided by their gcd.
pub open spec fn reduced(num: nat, den: nat) -> (nat, nat) {
    (num / spec_gcd(num, den), den / spec_gcd(num, den))
}

/// Reducing keeps the value: `num' * den == num * den'`, and leaves coprime numbers.
pub proof fn lemma_reduced_properties(num: nat, den: nat)
    requires
        num != 0 || den != 0,
    ensures
        reduced(num, den).0 * den == num * reduced(num, den).1,
        spec_gcd(reduced(num, den).0, reduced(num, den).1) == 1,
        den > 0 ==> reduced(num, den).1 > 0,
        reduced(num, den).0 <= num,
        reduced(num, den).1 <= den,
{
    let g = spec_gcd(num, den);
    lemma_gcd_divides(num, den);
    lemma_gcd_quotients_coprime(num, den);
    lemma_fundamental_div_mod(num as int, g as int);
    lemma_fundamental_div_mod(den as int, g as int);
    let a = num / g;
    let b = den / g;
    assert(a * den == num * b) by (nonlinear_arith)
        requires
            num == g * a,
            den == g * b,
    ;
    lemma_div_is_ordered_by_denominator(num as int, 1, g as int);
    lemma_div_is_ordered_by_denominator(den as int, 1, g as int);
    if den > 0 && b == 0 {
        assert(den == g * 0);
    }
}

/// Two fractions of equal value (positive denominators) have the same lowest terms.
pub proof fn lemma_reduced_eq(a: nat, b: nat, c: nat, d: nat)
    requires
        b > 0,
        d > 0,
        a * d == c * b,
    ensures
        reduced(a, b) == reduced(c, d),
{
    lemma_reduced_properties(a, b);
    lemma_reduced_properties(c, d);
    let (x1, y1) = reduced(a, b);
    let (x2, y2) = reduced(c, d);
    assert(x1 * y2 == x2 * y1) by (nonlinear_arith)
        requires
            x1 * b == a * y1,
            x2 * d == c * y2,
            a * d == c * b,
            b > 0,
            d > 0,
    ;
    lemma_lowest_terms_unique(x1, y1, x2, y2);
}

/// An exact fraction `num / den` of unsigned 128-bit integers.
#[derive(Copy, Clone)]
pub struct Rational {
    pub num: u128,
    pub den: u128,
}

impl Rational {
    /// Builds the fraction `num / den` in lowest terms.
    pub fn new(num: u128, den: u128) -> (r: Self)
        requires
            num != 0 || den != 0,
        ensures
            (r.num as nat, r.den as nat) == reduced(num as nat, den as nat),
            spec_gcd(r.num as nat, r.den as nat) == 1,
            r.num * den == num * r.den,
            den > 0 ==> r.den > 0,
    {
        let g = gcd(num, den);
        proof {
            lemma_gcd_divides(num as nat, den as nat);
            lemma_reduced_properties(num as nat, den as nat);
        }
        Self { num: num / g, den: den / g }
    }

    /// Multiplies the fraction by `num_mul / den_mul` and reduces the result.
    pub fn mul_int(self, num_mul: u128, den_mul: u128) -> (r: Self)
        requires
            self.num * num_mul <= u128::MAX,
            self.den * den_mul <= u128::MAX,
            self.num * num_mul != 0 || self.den * den_mul != 0,
        ensures
            (r.num as nat, r.den as nat) == reduced(
                (self.num * num_mul) as nat,
                (self.den * den_mul) as nat,
            ),
            spec_gcd(r.num as nat, r.den as nat) == 1,
            r.num * (self.den * den_mul) == (self.num * num_mul) * r.den,
    {
        let new_num = self.num * num_mul;
        let new_den = self.den * den_mul;
        Self::new(new_num, new_den)
    }
}

/// Numerator of the `k`-th diagonal Padé coefficient before reduction:
/// `(p) * (p - 1) * ... * (p - k + 1)`.
pub open spec fn pade_num(p: nat, k: nat) -> nat
    decreases k,
{
    if k == 0 {
        1
    } else {
        pade_num(p, (k - 1) as nat) * (p - k + 1) as nat
    }
}

/// Denominator of the `k`-th diagonal Padé coefficient before reduction:
/// the product of `j * (2p - j + 1)` for `j` in `1..=k`.
pub open spec fn pade_den(p: nat, k: nat) -> nat
    decreases k,
{
    if k == 0 {
        1
    } else {
        pade_den(p, (k - 1) as nat) * (k * (2 * p - k + 1) as nat)
    }
}

/// The `k`-th coefficient `c_k` of the diagonal `[p/p]` Padé approximant of `exp`,
/// as a fraction in lowest terms. It satisfies `c_0 = 1` and
/// `c_k = c_(k-1) * (p - k + 1) / (k * (2p - k + 1))`.
pub open spec fn pade_coef(p: nat, k: nat) -> (nat, nat) {
    reduced(pade_num(p, k), pade_den(p, k))
}

/// No step of the coefficient recurrence for degree `p` overflows 128 bits.
pub open spec fn pade_fits_u128(p: nat) -> bool {
    forall|k: nat|
        1 <= k <= p ==> {
            &&& #[trigger] pade_coef(p, (k - 1) as nat).0 * (p - k + 1) <= u128::MAX
            &&& pade_coef(p, (k - 1) as nat).1 * (k * (2 * p - k + 1)) <= u128::MAX
        }
}

/// The unreduced numerator and denominator are positive up to `k = p`.
pub proof fn lemma_pade_positive(p: nat, k: nat)
    requires
        k <= p,
    ensures
        pade_num(p, k) > 0,
        pade_den(p, k) > 0,
    decreases k,
{
    if k > 0 {
        lemma_pade_positive(p, (k - 1) as nat);
        lemma_mul_strictly_positive(pade_num(p, (k - 1) as nat) as int, (p - k + 1) as int);
        lemma_mul_strictly_positive(k as int, (2 * p - k + 1) as int);
        lemma_mul_strictly_positive(
            pade_den(p, (k - 1) as nat) as int,
            (k * (2 * p - k + 1) as nat) as int,
        );
    }
}

/// Multiplying a reduced fraction and reducing again gives the lowest terms of the
/// unreduced product.
pub proof fn lemma_reduced_step(num: nat, den: nat, m: nat, n: nat)
    requires
        den > 0,
        n > 0,
    ensures
        reduced(reduced(num, den).0 * m, reduced(num, den).1 * n) == reduced(num * m, den * n),
{
    lemma_reduced_properties(num, den);
    let (a, b) = reduced(num, den);
    lemma_mul_strictly_positive(b as int, n as int);
    lemma_mul_strictly_positive(den as int, n as int);
    assert((a * m) * (den * n) == (num * m) * (b * n)) by (nonlinear_arith)
        requires
            a * den == num * b,
    ;
    lemma_reduced_eq(a * m, b * n, num * m, den * n);
}

/// Computes the exact coefficients `c_2, ..., c_P` of the diagonal `[P/P]` Padé
/// approximant of the exponential, each in lowest terms. Entry `i` holds `c_(i+2)`;
/// entries past `c_P` hold `0 / 1`.
pub fn compute_pade_array<const P: usize, const LEN: usize>() -> (arr: [Rational; LEN])
    requires
        P < LEN + 2,
        2 * P <= usize::MAX,
        P * (P + 1) <= usize::MAX,
        pade_fits_u128(P as nat),
    ensures
        forall|i: int|
            0 <= i < LEN ==> if i + 2 <= P {
                (#[trigger] arr[i].num as nat, arr[i].den as nat) == pade_coef(
                    P as nat,
                    (i + 2) as nat,
                )
            } else {
                arr[i].num == 0 && arr[i].den == 1
            },
{
    let mut arr = [Rational { num: 0, den: 1 }; LEN];
    let mut current = Rational::new(1, 1);
    let mut k: usize = 1;
    proof {
        lemma_gcd_divides(1, 1);
    }
    while k <= P
        invariant
            1 <= k <= P + 1,
            P < LEN + 2,
            2 * P <= usize::MAX,
            P * (P + 1) <= usize::MAX,
            pade_fits_u128(P as nat),
            (current.num as nat, current.den as nat) == pade_coef(P as nat, (k - 1) as nat),
            forall|i: int|
                0 <= i < LEN ==> if i + 2 < k {
                    (#[trigger] arr[i].num as nat, arr[i].den as nat) == pade_coef(
                        P as nat,
                        (i + 2) as nat,
                    )
                } else {
                    arr[i].num == 0 && arr[i].den == 1
                },
        decreases P + 1 - k,
    {
        // a_k = a_{k-1} * (p - k + 1) / (k * (2p - k + 1))
        assert(k * (2 * P - k + 1) <= P * (P + 1)) by (nonlinear_arith)
            requires
                1 <= k <= P,
        ;
        let num_mul = (P - k + 1) as u128;
        let den_mul = (k * (2 * P - k + 1)) as u128;
        proof {
            let kk = k as nat;
            lemma_mul_strictly_positive(k as int, (2 * P - k + 1) as int);
            assert(pade_coef(P as nat, (kk - 1) as nat).0 * (P - kk + 1) <= u128::MAX);
            lemma_pade_positive(P as nat, (kk - 1) as nat);
            lemma_reduced_properties(
                pade_num(P as nat, (kk - 1) as nat),
                pade_den(P as nat, (kk - 1) as nat),
            );
            lemma_mul_strictly_positive(current.den as int, den_mul as int);
            lemma_reduced_step(
                pade_num(P as nat, (kk - 1) as nat),
                pade_den(P as nat, (kk - 1) as nat),
                num_mul as nat,
                den_mul as nat,
            );
        }
        current = current.mul_int(num_mul, den_mul);
        assert(pade_num(P as nat, k as nat) == pade_num(P as nat, (k - 1) as nat) * num_mul);
        assert(pade_den(P as nat, k as nat) == pade_den(P as nat, (k - 1) as nat) * den_mul);
        assert((current.num as nat, current.den as nat) == pade_coef(P as nat, k as nat));
        let ghost prev = arr;
        if k >= 2 {
            arr[k - 2] = current;
        }
        assert forall|i: int| 0 <= i < LEN && i + 2 != k implies #[trigger] arr[i] == prev[i] by {}
        if k >= 2 {
            assert(arr[k - 2] == current);
        }
        k += 1;
    }
    arr
}

/// Each unreduced numerator is at most the matching denominator.
proof fn lemma_pade_num_le_den(p: nat, k: nat)
    requires
        k <= p,
    ensures
        pade_num(p, k) <= pade_den(p, k),
    decreases k,
{
    if k > 0 {
        lemma_pade_num_le_den(p, (k - 1) as nat);
        assert((p - k + 1) as nat <= (k * (2 * p - k + 1) as nat)) by (nonlinear_arith)
            requires
                1 <= k <= p,
        ;
        lemma_mul_upper_bound(
            pade_num(p, (k - 1) as nat) as int,
            pade_den(p, (k - 1) as nat) as int,
            (p - k + 1) as int,
            (k * (2 * p - k + 1) as nat) as int,
        );
    }
}

/// The unreduced denominators grow with `k`.
proof fn lemma_pade_den_monotone(p: nat, k1: nat, k2: nat)
    requires
        k1 <= k2 <= p,
    ensures
        pade_den(p, k1) <= pade_den(p, k2),
    decreases k2,
{
    if k1 < k2 {
        lemma_pade_den_monotone(p, k1, (k2 - 1) as nat);
        assert(1 <= (k2 * (2 * p - k2 + 1) as nat)) by (nonlinear_arith)
            requires
                1 <= k2 <= p,
        ;
        lemma_pade_positive(p, (k2 - 1) as nat);
        lemma_mul_increases((k2 * (2 * p - k2 + 1) as nat) as int, pade_den(p, (k2 - 1) as nat) as int);
        lemma_mul_is_commutative(
            (k2 * (2 * p - k2 + 1) as nat) as int,
            pade_den(p, (k2 - 1) as nat) as int,
        );
    }
}

/// The coefficient recurrence for degree `p` stays within 128 bits whenever the
/// unreduced final denominator `k! (2p)! / (2p - k)!` at `k = p` does.
pub proof fn lemma_pade_fits_u128(p: nat)
    requires
        pade_den(p, p) <= u128::MAX,
    ensures
        pade_fits_u128(p),
{
    assert forall|k: nat| 1 <= k <= p implies {
        &&& #[trigger] pade_coef(p, (k - 1) as nat).0 * (p - k + 1) <= u128::MAX
        &&& pade_coef(p, (k - 1) as nat).1 * (k * (2 * p - k + 1)) <= u128::MAX
    } by {
        let km = (k - 1) as nat;
        lemma_pade_positive(p, km);
        lemma_reduced_properties(pade_num(p, km), pade_den(p, km));
        lemma_pade_num_le_den(p, k);
        lemma_pade_den_monotone(p, k, p);
        assert(pade_num(p, k) == pade_num(p, km) * (p - k + 1) as nat);
        assert(pade_den(p, k) == pade_den(p, km) * (k * (2 * p - k + 1) as nat));
        lemma_mul_inequality(
            pade_coef(p, km).0 as int,
            pade_num(p, km) as int,
            (p - k + 1) as int,
        );
        lemma_mul_inequality(
            pade_coef(p, km).1 as int,
            pade_den(p, km) as int,
            (k * (2 * p - k + 1)) as int,
        );
    }
}

/// Converts each exact fraction to the bit pattern of the nearest `f64`.
pub fn rational_arr_to_f64_bits<const LEN: usize>(r: [Rational; LEN]) -> (bits: [u64; LEN])
    ensures
        forall|i: int|
            0 <= i < LEN ==> #[trigger] bits[i] as nat == f64_bits_of_ratio(
                r[i].num as nat,
                r[i].den as nat,
            ),
{
    let mut arr = [0u64; LEN];
    let mut i: usize = 0;
    while i < LEN
        invariant
            i <= LEN,
            forall|j: int|
                0 <= j < i ==> #[trigger] arr[j] as nat == f64_bits_of_ratio(
                    r[j].num as nat,
                    r[j].den as nat,
                ),
        decreases LEN - i,
    {
        let ghost prev = arr;
        arr[i] = u128_div_to_f64_bits(r[i].num, r[i].den);
        assert forall|j: int| 0 <= j < LEN && j != i implies #[trigger] arr[j] == prev[j] by {}
        i += 1;
    }
    arr
}

/// The degrees for which the exponential evaluates a Padé approximant.
pub open spec fn is_supported_degree(pol_deg: nat) -> bool {
    pol_deg == 3 || pol_deg == 4 || pol_deg == 5 || pol_deg == 6 || pol_deg == 7 || pol_deg == 9
        || pol_deg == 13
}

/// One step of the unreduced denominator recurrence.
proof fn lemma_pade_den_step(p: nat, k: nat)
    ensures
        pade_den(p, k + 1) == pade_den(p, k) * ((k + 1) * (2 * p - k) as nat),
{
}

/// `pade_den(13, 13) = 26!`, computed step by step.
proof fn lemma_pade_den_13()
    ensures
        pade_den(13, 13) == 403291461126605635584000000,
{
    lemma_pade_den_step(13, 0);
    assert(pade_den(13, 1) == 26);
    lemma_pade_den_step(13, 1);
    assert(pade_den(13, 2) == 1300);
    lemma_pade_den_step(13, 2);
    assert(pade_den(13, 3) == 93600);
    lemma_pade_den_step(13, 3);
    assert(pade_den(13, 4) == 8611200);
    lemma_pade_den_step(13, 4);
    assert(pade_den(13, 5) == 947232000);
    lemma_pade_den_step(13, 5);
    assert(pade_den(13, 6) == 119351232000);
    lemma_pade_den_step(13, 6);
    assert(pade_den(13, 7) == 16709172480000);
    lemma_pade_den_step(13, 7);
    assert(pade_den(13, 8) == 2539794216960000);
    lemma_pade_den_step(13, 8);
    assert(pade_den(13, 9) == 411446663147520000);
    lemma_pade_den_step(13, 9);
    assert(pade_den(13, 10) == 69945932735078400000);
    lemma_pade_den_step(13, 10);
    assert(pade_den(13, 11) == 12310484161373798400000);
    lemma_pade_den_step(13, 11);
    assert(pade_den(13, 12) == 2215887149047283712000000);
    lemma_pade_den_step(13, 12);
    assert(pade_den(13, 13) == 403291461126605635584000000);
}

/// `m <= n` implies `m! <= n!`.
proof fn lemma_factorial_monotone(m: nat, n: nat)
    requires
        m <= n,
    ensures
        factorial(m) <= factorial(n),
    decreases n,
{
    if m < n {
        lemma_factorial_monotone(m, (n - 1) as nat);
        lemma_factorial_positive((n - 1) as nat);
        lemma_mul_increases(n as int, factorial((n - 1) as nat) as int);
    }
}

/// For every degree `p <= 13` the coefficient recurrence stays within 128 bits:
/// the unreduced final denominator is `(2p)! <= 26! < 2^128`.
pub proof fn lemma_pade_fits_u128_up_to_13(p: nat)
    requires
        p <= 13,
    ensures
        pade_fits_u128(p),
{
    lemma_pade_den_factorial(p, p);
    lemma_pade_den_factorial(13, 13);
    lemma_factorial_positive(p);
    lemma_factorial_positive(13);
    assert((2 * p - p) as nat == p);
    lemma_mul_is_commutative(pade_den(p, p) as int, factorial(p) as int);
    lemma_mul_equality_converse(factorial(p) as int, pade_den(p, p) as int, factorial(2 * p) as int);
    lemma_mul_is_commutative(pade_den(13, 13) as int, factorial(13) as int);
    lemma_mul_equality_converse(factorial(13) as int, pade_den(13, 13) as int, factorial(26) as int);
    lemma_pade_den_13();
    lemma_factorial_monotone(2 * p, 26);
    lemma_pade_fits_u128(p);
}

/// The `f64` bit patterns of `c_2, ..., c_P` for one degree `P`.
fn degree_coeff_bits<const P: usize, const LEN: usize>() -> (bits: Vec<u64>)
    requires
        LEN + 1 == P,
        P <= 13,
        pade_fits_u128(P as nat),
    ensures
        bits@.len() == LEN,
        forall|i: int|
            0 <= i < LEN ==> #[trigger] bits@[i] as nat == f64_bits_of_ratio(
                pade_coef(P as nat, (i + 2) as nat).0,
                pade_coef(P as nat, (i + 2) as nat).1,
            ),
{
    assert(P * (P + 1) <= 182) by (nonlinear_arith)
        requires
            P <= 13,
    ;
    let coefs = compute_pade_array::<P, LEN>();
    let arr = rational_arr_to_f64_bits(coefs);
    vstd::slice::slice_to_vec(arr.as_slice())
}

/// The `f64` bit patterns of the Padé coefficients `c_2, ..., c_p` of degree
/// `pol_deg` (`c_0 = 1` and `c_1 = 1/2` are left out). Supported degrees are
/// 3, 4, 5, 6, 7, 9 and 13; any other degree gives an empty list.
pub fn pade_coeffs_bits(pol_deg: usize) -> (bits: Vec<u64>)
    ensures
        is_supported_degree(pol_deg as nat) ==> bits@.len() == pol_deg - 1,
        !is_supported_degree(pol_deg as nat) ==> bits@.len() == 0,
        forall|i: int|
            0 <= i < bits@.len() ==> #[trigger] bits@[i] as nat == f64_bits_of_ratio(
                pade_coef(pol_deg as nat, (i + 2) as nat).0,
                pade_coef(pol_deg as nat, (i + 2) as nat).1,
            ),
{
    proof {
        if pol_deg <= 13 {
            lemma_pade_fits_u128_up_to_13(pol_deg as nat);
        }
    }
    match pol_deg {
        3 => degree_coeff_bits::<3, 2>(),
        4 => degree_coeff_bits::<4, 3>(),
        5 => degree_coeff_bits::<5, 4>(),
        6 => degree_coeff_bits::<6, 5>(),
        7 => degree_coeff_bits::<7, 6>(),
        9 => degree_coeff_bits::<9, 8>(),
        13 => degree_coeff_bits::<13, 12>(),
        _ => Vec::new(),
    }
}

/// Reducing a fraction that is already in lowest terms changes nothing, so
/// `Rational::new(r.num, r.den)` returns `r` for every `r` that `Rational::new` built.
pub proof fn lemma_reduced_idempotent(num: nat, den: nat)
    requires
        num != 0 || den != 0,
    ensures
        reduced(reduced(num, den).0, reduced(num, den).1) == reduced(num, den),
{
    lemma_reduced_properties(num, den);
}

/// The Padé coefficients follow `c_0 = 1`, `c_1 = 1/2` and
/// `c_k = c_(k-1) * (p - k + 1) / (k * (2p - k + 1))`, each in lowest terms.
pub proof fn lemma_pade_coef_recurrence(p: nat, k: nat)
    requires
        1 <= k <= p,
    ensures
        pade_coef(p, 0) == (1nat, 1nat),
        pade_coef(p, 1) == (1nat, 2nat),
        pade_coef(p, k) == reduced(
            pade_coef(p, (k - 1) as nat).0 * (p - k + 1) as nat,
            pade_coef(p, (k - 1) as nat).1 * (k * (2 * p - k + 1) as nat),
        ),
{
    assert(spec_gcd(1, 1) == 1) by {
        reveal_with_fuel(spec_gcd, 3);
    }
    assert(spec_gcd(1, 2) == 1) by {
        reveal_with_fuel(spec_gcd, 3);
    }
    reveal_with_fuel(pade_num, 2);
    reveal_with_fuel(pade_den, 2);
    assert(pade_num(p, 1) == p);
    assert(pade_den(p, 1) == 2 * p);
    lemma_reduced_eq(p, 2 * p, 1, 2);
    lemma_pade_positive(p, (k - 1) as nat);
    lemma_mul_strictly_positive(k as int, (2 * p - k + 1) as int);
    lemma_reduced_step(
        pade_num(p, (k - 1) as nat),
        pade_den(p, (k - 1) as nat),
        (p - k + 1) as nat,
        (k * (2 * p - k + 1) as nat),
    );
}

/// `n!`
pub open spec fn factorial(n: nat) -> nat
    decreases n,
{
    if n == 0 {
        1
    } else {
        n * factorial((n - 1) as nat)
    }
}

proof fn lemma_factorial_positive(n: nat)
    ensures
        factorial(n) > 0,
    decreases n,
{
    if n > 0 {
        lemma_factorial_positive((n - 1) as nat);
        lemma_mul_strictly_positive(n as int, factorial((n - 1) as nat) as int);
    }
}

/// `pade_num(p, k) = p! / (p - k)!`
proof fn lemma_pade_num_factorial(p: nat, k: nat)
    requires
        k <= p,
    ensures
        pade_num(p, k) * factorial((p - k) as nat) == factorial(p),
    decreases k,
{
    if k > 0 {
        lemma_pade_num_factorial(p, (k - 1) as nat);
        let j = (p - k + 1) as nat;
        assert(factorial(j) == j * factorial((p - k) as nat));
        assert(pade_num(p, k) * factorial((p - k) as nat) == pade_num(p, (k - 1) as nat)
            * factorial(j)) by (nonlinear_arith)
            requires
                pade_num(p, k) == pade_num(p, (k - 1) as nat) * j,
                factorial(j) == j * factorial((p - k) as nat),
        ;
        assert(j == (p - (k - 1) as nat) as nat);
        assert(pade_num(p, (k - 1) as nat) * factorial(j) == factorial(p));
    } else {
        assert(pade_num(p, 0) == 1);
        assert((p - k) as nat == p);
    }
}

/// `pade_den(p, k) = k! (2p)! / (2p - k)!`
proof fn lemma_pade_den_factorial(p: nat, k: nat)
    requires
        k <= p,
    ensures
        pade_den(p, k) * factorial((2 * p - k) as nat) == factorial(k) * factorial(2 * p),
    decreases k,
{
    if k > 0 {
        lemma_pade_den_factorial(p, (k - 1) as nat);
        let j = (2 * p - k + 1) as nat;
        assert(factorial(j) == j * factorial((2 * p - k) as nat));
        assert(pade_den(p, k) * factorial((2 * p - k) as nat) == k * (pade_den(
            p,
            (k - 1) as nat,
        ) * factorial(j))) by (nonlinear_arith)
            requires
                pade_den(p, k) == pade_den(p, (k - 1) as nat) * (k * j),
                factorial(j) == j * factorial((2 * p - k) as nat),
        ;
        assert(j == (2 * p - (k - 1) as nat) as nat);
        assert(pade_den(p, (k - 1) as nat) * factorial(j) == factorial((k - 1) as nat) * factorial(
            2 * p,
        ));
        assert(factorial(k) == k * factorial((k - 1) as nat));
        assert(k * (factorial((k - 1) as nat) * factorial(2 * p)) == factorial(k) * factorial(
            2 * p,
        )) by (nonlinear_arith)
            requires
                factorial(k) == k * factorial((k - 1) as nat),
        ;
    }
}

/// Closed form of the diagonal Padé coefficients of `exp`:
/// `c_k = (2p - k)! p! / ((2p)! k! (p - k)!)`, in lowest terms.
pub proof fn lemma_pade_coef_closed_form(p: nat, k: nat)
    requires
        k <= p,
    ensures
        pade_coef(p, k) == reduced(
            factorial((2 * p - k) as nat) * factorial(p),
            factorial(2 * p) * factorial(k) * factorial((p - k) as nat),
        ),
{
    lemma_pade_num_factorial(p, k);
    lemma_pade_den_factorial(p, k);
    lemma_pade_positive(p, k);
    lemma_factorial_positive(2 * p);
    lemma_factorial_positive(k);
    lemma_factorial_positive((p - k) as nat);
    lemma_mul_strictly_positive(factorial(2 * p) as int, factorial(k) as int);
    lemma_mul_strictly_positive(
        (factorial(2 * p) * factorial(k)) as int,
        factorial((p - k) as nat) as int,
    );
    let n1 = pade_num(p, k);
    let d1 = pade_den(p, k);
    let n2 = factorial((2 * p - k) as nat) * factorial(p);
    let d2 = factorial(2 * p) * factorial(k) * factorial((p - k) as nat);
    assert(n1 * d2 == n2 * d1) by (nonlinear_arith)
        requires
            n1 * factorial((p - k) as nat) == factorial(p),
            d1 * factorial((2 * p - k) as nat) == factorial(k) * factorial(2 * p),
            n2 == factorial((2 * p - k) as nat) * factorial(p),
            d2 == factorial(2 * p) * factorial(k) * factorial((p - k) as nat),
    ;
    lemma_reduced_eq(n1, d1, n2, d2);
}

} // verus!
