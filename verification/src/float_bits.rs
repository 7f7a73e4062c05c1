use vstd::arithmetic::div_mod::*;
use vstd::arithmetic::mul::*;
use vstd::arithmetic::power2::*;
use vstd::bits::lemma_u64_shr_is_div;
use vstd::prelude::*;
use vstd::std_specs::bits::{axiom_u64_leading_zeros, u64_leading_zeros};

verus! {

/// `x` when it is not negative, else 0.
pub open spec fn max0(x: int) -> nat {
    if x < 0 {
        0
    } else {
        x as nat
    }
}

/// `num / den >= 2^e`, for any integer exponent `e`.
pub open spec fn ratio_at_least_pow2(num: nat, den: nat, e: int) -> bool {
    num * pow2(max0(-e)) >= den * pow2(max0(e))
}

/// `2^e <= num / den < 2^(e + 1)`.
pub open spec fn in_binade(num: nat, den: nat, e: int) -> bool {
    ratio_at_least_pow2(num, den, e) && !ratio_at_least_pow2(num, den, e + 1)
}

/// The exponent `e` with `2^e <= num / den < 2^(e + 1)` (for positive `num`, `den`).
pub open spec fn binade(num: nat, den: nat) -> int {
    choose|e: int| in_binade(num, den, e)
}

/// The integer nearest to `a / b`, ties going to the even one.
pub open spec fn round_half_even(a: nat, b: nat) -> nat {
    let q = a / b;
    let r = a % b;
    if 2 * r > b || (2 * r == b && q % 2 == 1) {
        q + 1
    } else {
        q
    }
}

/// `num / den * 2^(52 - e)` rounded to the nearest integer, ties to even: the
/// 53-bit significand of `num / den` when `e` is its binade.
pub open spec fn rounded_significand(num: nat, den: nat, e: int) -> nat {
    round_half_even(num * pow2(max0(52 - e)), den * pow2(max0(e - 52)))
}

/// Bit pattern of `+inf` in IEEE 754 binary64.
pub open spec fn f64_infinity_bits() -> nat {
    2047 * pow2(52)
}

/// The IEEE 754 binary64 bit pattern of `num / den`, rounded to nearest with ties
/// to even. A zero denominator gives `+inf`, a zero numerator `+0`; a result whose
/// biased exponent is at least 2047 is `+inf`, and one whose biased exponent would
/// be 0 or less (the subnormal range) is flushed to `+0`.
pub open spec fn f64_bits_of_ratio(num: nat, den: nat) -> nat {
    if den == 0 {
        f64_infinity_bits()
    } else if num == 0 {
        0
    } else {
        let e = binade(num, den);
        let m = rounded_significand(num, den, e);
        let e2 = if m == pow2(53) { e + 1 } else { e };
        let m2 = if m == pow2(53) { pow2(52) } else { m };
        let biased = e2 + 1023;
        if biased <= 0 {
            0
        } else if biased >= 2047 {
            f64_infinity_bits()
        } else {
            (biased * pow2(52) + m2 - pow2(52)) as nat
        }
    }
}

/// Multiplying both sides by a positive factor keeps a comparison.
proof fn lemma_scale_ge(x: nat, y: nat, c: nat)
    requires
        c > 0,
    ensures
        (x * c >= y * c) == (x >= y),
{
    if x >= y {
        lemma_mul_inequality(y as int, x as int, c as int);
    } else {
        lemma_mul_strict_inequality(x as int, y as int, c as int);
    }
}

/// Exponent pairs with the same difference differ by a common power of two.
proof fn lemma_pow2_common_shift(a1: nat, b1: nat, a2: nat, b2: nat)
    requires
        a1 <= a2,
        a1 - b1 == a2 - b2,
    ensures
        pow2(a2) == pow2(a1) * pow2((a2 - a1) as nat),
        pow2(b2) == pow2(b1) * pow2((a2 - a1) as nat),
        pow2((a2 - a1) as nat) > 0,
{
    lemma_pow2_adds(a1, (a2 - a1) as nat);
    lemma_pow2_adds(b1, (a2 - a1) as nat);
    lemma_pow2_pos((a2 - a1) as nat);
}

/// `num / den >= 2^e` may be tested at any scale `num * 2^a >= den * 2^b` with `a - b == -e`.
pub proof fn lemma_at_least_rescale(num: nat, den: nat, e: int, a: nat, b: nat)
    requires
        a - b == -e,
    ensures
        ratio_at_least_pow2(num, den, e) == (num * pow2(a) >= den * pow2(b)),
{
    let a0 = max0(-e);
    let b0 = max0(e);
    lemma_pow2_common_shift(a0, b0, a, b);
    let c = pow2((a - a0) as nat);
    lemma_scale_ge(num * pow2(a0), den * pow2(b0), c);
    lemma_mul_is_associative(num as int, pow2(a0) as int, c as int);
    lemma_mul_is_associative(den as int, pow2(b0) as int, c as int);
}

/// `num / den >= 2^(e+1)` implies `num / den >= 2^e`.
proof fn lemma_at_least_step(num: nat, den: nat, e: int)
    requires
        ratio_at_least_pow2(num, den, e + 1),
    ensures
        ratio_at_least_pow2(num, den, e),
{
    let a = max0(-e);
    let b = max0(e);
    lemma_at_least_rescale(num, den, e + 1, a, b + 1);
    lemma_at_least_rescale(num, den, e, a + 1, b + 1);
    lemma_pow2_unfold(a + 1);
    lemma_pow2_unfold(b + 1);
    lemma_pow2_unfold(b + 2);
    assert(num * pow2(a + 1) >= den * pow2(b + 1)) by (nonlinear_arith)
        requires
            num * pow2(a) >= den * pow2(b + 1),
            pow2(a + 1) == 2 * pow2(a),
            pow2(b + 1) == 2 * pow2(b),
            pow2((b + 1 + 1) as nat) == 2 * pow2(b + 1),
    ;
}

/// `num / den >= 2^e2` implies `num / den >= 2^e1` for `e1 <= e2`.
proof fn lemma_at_least_monotone(num: nat, den: nat, e1: int, e2: int)
    requires
        e1 <= e2,
        ratio_at_least_pow2(num, den, e2),
    ensures
        ratio_at_least_pow2(num, den, e1),
    decreases e2 - e1,
{
    if e1 < e2 {
        lemma_at_least_step(num, den, e2 - 1);
        lemma_at_least_monotone(num, den, e1, e2 - 1);
    }
}

/// A ratio lies in exactly one binade.
pub proof fn lemma_binade_unique(num: nat, den: nat, e1: int, e2: int)
    requires
        in_binade(num, den, e1),
        in_binade(num, den, e2),
    ensures
        e1 == e2,
{
    if e1 < e2 {
        lemma_at_least_monotone(num, den, e1 + 1, e2);
    } else if e2 < e1 {
        lemma_at_least_monotone(num, den, e2 + 1, e1);
    }
}

/// Scaling both operands of a rounded division by the same positive factor keeps it.
proof fn lemma_round_half_even_scale(a: nat, b: nat, c: nat)
    requires
        b > 0,
        c > 0,
    ensures
        round_half_even(a * c, b * c) == round_half_even(a, b),
{
    let q = a / b;
    let r = a % b;
    lemma_fundamental_div_mod(a as int, b as int);
    lemma_mod_bound(a as int, b as int);
    assert(a * c == q * (b * c) + r * c) by (nonlinear_arith)
        requires
            a == b * q + r,
    ;
    lemma_mul_strict_inequality(r as int, b as int, c as int);
    lemma_mul_strictly_positive(b as int, c as int);
    lemma_fundamental_div_mod_converse((a * c) as int, (b * c) as int, q as int, (r * c) as int);
    lemma_scale_ge(2 * r + 1, b + 1, c);
    assert((2 * (r * c) > b * c) == (2 * r > b)) by (nonlinear_arith)
        requires
            c > 0,
    ;
    assert((2 * (r * c) == b * c) == (2 * r == b)) by (nonlinear_arith)
        requires
            c > 0,
    ;
}

/// The significand may be rounded at any scale `num * 2^a / (den * 2^b)` with `a - b == 52 - e`.
pub proof fn lemma_significand_rescale(num: nat, den: nat, e: int, a: nat, b: nat)
    requires
        den > 0,
        a - b == 52 - e,
    ensures
        rounded_significand(num, den, e) == round_half_even(num * pow2(a), den * pow2(b)),
{
    let a0 = max0(52 - e);
    let b0 = max0(e - 52);
    lemma_pow2_common_shift(a0, b0, a, b);
    let c = pow2((a - a0) as nat);
    lemma_pow2_pos(b0);
    lemma_mul_strictly_positive(den as int, pow2(b0) as int);
    lemma_round_half_even_scale(num * pow2(a0), den * pow2(b0), c);
    lemma_mul_is_associative(num as int, pow2(a0) as int, c as int);
    lemma_mul_is_associative(den as int, pow2(b0) as int, c as int);
}

/// `2^n > n`.
proof fn lemma_pow2_exceeds(n: nat)
    ensures
        pow2(n) > n,
    decreases n,
{
    if n == 0 {
        lemma2_to64();
    } else {
        lemma_pow2_exceeds((n - 1) as nat);
        lemma_pow2_unfold(n);
        lemma_pow2_pos((n - 1) as nat);
    }
}

/// Between an exponent that `num / den` reaches and one it does not, there is its binade.
proof fn lemma_binade_between(num: nat, den: nat, e1: int, e2: int)
    requires
        e1 < e2,
        ratio_at_least_pow2(num, den, e1),
        !ratio_at_least_pow2(num, den, e2),
    ensures
        exists|e: int| e1 <= e < e2 && in_binade(num, den, e),
    decreases e2 - e1,
{
    if ratio_at_least_pow2(num, den, e1 + 1) {
        lemma_binade_between(num, den, e1 + 1, e2);
    } else {
        assert(in_binade(num, den, e1));
    }
}

/// A positive ratio lies in its binade: `2^binade <= num / den < 2^(binade + 1)`.
pub proof fn lemma_binade_exists(num: nat, den: nat)
    requires
        num > 0,
        den > 0,
    ensures
        in_binade(num, den, binade(num, den)),
{
    let lo = -(den as int);
    let hi = num as int;
    lemma2_to64();
    lemma_pow2_exceeds(den);
    lemma_pow2_exceeds(num);
    lemma_pow2_pos(den);
    lemma_pow2_pos(num);
    assert(num * pow2(den) >= den * pow2(0)) by (nonlinear_arith)
        requires
            num > 0,
            pow2(den) > den,
            pow2(0) == 1,
    {
    }
    assert(!(num * pow2(0) >= den * pow2(num))) by (nonlinear_arith)
        requires
            den > 0,
            pow2(num) > num,
            pow2(0) == 1,
    {
    }
    lemma2_to64();
    assert(ratio_at_least_pow2(num, den, lo));
    assert(!ratio_at_least_pow2(num, den, hi));
    lemma_binade_between(num, den, lo, hi);
}

/// The rounded `f64` of `num / den` depends only on the value of the ratio:
/// scaling numerator and denominator by the same positive factor keeps it.
pub proof fn lemma_f64_bits_of_ratio_scale(num: nat, den: nat, c: nat)
    requires
        c > 0,
    ensures
        f64_bits_of_ratio(num * c, den * c) == f64_bits_of_ratio(num, den),
{
    if den != 0 && num != 0 {
        lemma_mul_strictly_positive(num as int, c as int);
        lemma_mul_strictly_positive(den as int, c as int);
        let e = binade(num, den);
        lemma_binade_exists(num, den);
        let a0 = max0(-e);
        let b0 = max0(e);
        let a1 = max0(-(e + 1));
        let b1 = max0(e + 1);
        lemma_pow2_pos(a0);
        lemma_pow2_pos(a1);
        lemma_scale_ge(num * pow2(a0), den * pow2(b0), c);
        lemma_scale_ge(num * pow2(a1), den * pow2(b1), c);
        assert(num * c * pow2(a0) == num * pow2(a0) * c) by (nonlinear_arith);
        assert(den * c * pow2(b0) == den * pow2(b0) * c) by (nonlinear_arith);
        assert(num * c * pow2(a1) == num * pow2(a1) * c) by (nonlinear_arith);
        assert(den * c * pow2(b1) == den * pow2(b1) * c) by (nonlinear_arith);
        assert(in_binade(num * c, den * c, e));
        lemma_binade_exists(num * c, den * c);
        lemma_binade_unique(num * c, den * c, e, binade(num * c, den * c));
        let a = max0(52 - e);
        let b = max0(e - 52);
        lemma_pow2_pos(b);
        lemma_mul_strictly_positive(den as int, pow2(b) as int);
        lemma_round_half_even_scale(num * pow2(a), den * pow2(b), c);
        assert(num * c * pow2(a) == num * pow2(a) * c) by (nonlinear_arith);
        assert(den * c * pow2(b) == den * pow2(b) * c) by (nonlinear_arith);
        assert(binade(num * c, den * c) == e);
        assert(rounded_significand(num * c, den * c, e) == rounded_significand(num, den, e));
    } else {
        lemma_mul_basics(c as int);
        if den != 0 {
            lemma_mul_strictly_positive(den as int, c as int);
        }
    }
}

/// A ratio that an `f64` represents exactly converts without error: when
/// `num / den == m * 2^(e - 52)` with a 53-bit significand `m` and an exponent `e` in
/// the normal range, the result holds biased exponent `e + 1023` and significand `m`.
pub proof fn lemma_exact_ratio_bits(num: nat, den: nat, m: nat, e: int)
    requires
        den > 0,
        pow2(52) <= m < pow2(53),
        -1022 <= e <= 1023,
        num * pow2(max0(52 - e)) == m * (den * pow2(max0(e - 52))),
    ensures
        f64_bits_of_ratio(num, den) == ((e + 1023) * pow2(52) + m - pow2(52)) as nat,
{
    let a = max0(52 - e);
    let b0 = max0(e - 52);
    let dd = den * pow2(b0);
    lemma_pow2_pos(a);
    lemma_pow2_pos(b0);
    lemma_pow2_pos(52);
    lemma_mul_strictly_positive(den as int, pow2(b0) as int);
    lemma_mul_strictly_positive(m as int, dd as int);
    if num == 0 {
        lemma_mul_basics(pow2(a) as int);
    }
    assert(num > 0);
    // binade: 2^52 <= m < 2^53 places num / den in [2^e, 2^(e+1))
    lemma_pow2_adds(b0, 52);
    lemma_pow2_adds(b0, 53);
    lemma_at_least_rescale(num, den, e, a, b0 + 52);
    lemma_at_least_rescale(num, den, e + 1, a, b0 + 53);
    assert(den * pow2(b0 + 52) == pow2(52) * dd) by (nonlinear_arith)
        requires
            pow2(b0 + 52) == pow2(b0) * pow2(52),
            dd == den * pow2(b0),
    ;
    assert(den * pow2(b0 + 53) == pow2(53) * dd) by (nonlinear_arith)
        requires
            pow2(b0 + 53) == pow2(b0) * pow2(53),
            dd == den * pow2(b0),
    ;
    lemma_scale_ge(m, pow2(52), dd);
    lemma_scale_ge(m, pow2(53), dd);
    assert(in_binade(num, den, e));
    lemma_binade_exists(num, den);
    lemma_binade_unique(num, den, e, binade(num, den));
    // the significand is exact
    lemma_fundamental_div_mod_converse((num * pow2(a)) as int, dd as int, m as int, 0);
    assert(rounded_significand(num, den, e) == m);
    lemma_pow2_strictly_increases(52, 53);
}

/// Rounding to the nearest integer (ties to even) is monotone in the quotient.
proof fn lemma_round_half_even_monotone(a1: nat, b1: nat, a2: nat, b2: nat)
    requires
        b1 > 0,
        b2 > 0,
        a1 * b2 <= a2 * b1,
    ensures
        round_half_even(a1, b1) <= round_half_even(a2, b2),
{
    let q1 = a1 / b1;
    let r1 = a1 % b1;
    let q2 = a2 / b2;
    let r2 = a2 % b2;
    lemma_fundamental_div_mod(a1 as int, b1 as int);
    lemma_fundamental_div_mod(a2 as int, b2 as int);
    lemma_mod_bound(a1 as int, b1 as int);
    lemma_mod_bound(a2 as int, b2 as int);
    assert(q1 <= q2) by (nonlinear_arith)
        requires
            a1 == b1 * q1 + r1,
            a2 == b2 * q2 + r2,
            r2 < b2,
            b1 > 0,
            b2 > 0,
            a1 * b2 <= a2 * b1,
    ;
    if q1 == q2 {
        assert(r1 * b2 <= r2 * b1) by (nonlinear_arith)
            requires
                a1 == b1 * q1 + r1,
                a2 == b2 * q1 + r2,
                a1 * b2 <= a2 * b1,
        ;
        if 2 * r1 > b1 {
            assert(2 * r2 > b2) by (nonlinear_arith)
                requires
                    r1 * b2 <= r2 * b1,
                    2 * r1 > b1,
                    b2 > 0,
            ;
        }
        if 2 * r1 == b1 {
            assert(2 * r2 >= b2) by (nonlinear_arith)
                requires
                    r1 * b2 <= r2 * b1,
                    2 * r1 == b1,
                    b1 > 0,
            ;
        }
    }
}

/// In its binade, the significand of `num / den` rounds into `[2^52, 2^53]`.
proof fn lemma_significand_range(num: nat, den: nat, e: int)
    requires
        den > 0,
        in_binade(num, den, e),
    ensures
        pow2(52) <= rounded_significand(num, den, e) <= pow2(53),
{
    let a = max0(52 - e);
    let b0 = max0(e - 52);
    let aa = num * pow2(a);
    let dd = den * pow2(b0);
    lemma_pow2_pos(b0);
    lemma_mul_strictly_positive(den as int, pow2(b0) as int);
    lemma_pow2_adds(b0, 52);
    lemma_pow2_adds(b0, 53);
    lemma_at_least_rescale(num, den, e, a, b0 + 52);
    lemma_at_least_rescale(num, den, e + 1, a, b0 + 53);
    assert(den * pow2(b0 + 52) == pow2(52) * dd) by (nonlinear_arith)
        requires
            pow2(b0 + 52) == pow2(b0) * pow2(52),
            dd == den * pow2(b0),
    ;
    assert(den * pow2(b0 + 53) == pow2(53) * dd) by (nonlinear_arith)
        requires
            pow2(b0 + 53) == pow2(b0) * pow2(53),
            dd == den * pow2(b0),
    ;
    let q = aa / dd;
    let r = aa % dd;
    lemma_fundamental_div_mod(aa as int, dd as int);
    lemma_mod_bound(aa as int, dd as int);
    assert(pow2(52) <= q < pow2(53)) by (nonlinear_arith)
        requires
            aa == dd * q + r,
            r < dd,
            aa >= pow2(52) * dd,
            aa < pow2(53) * dd,
            dd > 0,
    ;
}

/// The position of the rounded ratio on the `f64` number line, before the range is
/// clamped: biased exponent times `2^52` plus the fraction bits.
pub open spec fn unclamped_bits(num: nat, den: nat) -> int {
    (binade(num, den) + 1023) * pow2(52) + rounded_significand(num, den, binade(num, den))
        - pow2(52)
}

/// For a positive ratio, the bit pattern is the unclamped position clamped to
/// `[+0, +inf]`; the carry of a significand that rounds up to `2^53` does not move it.
proof fn lemma_bits_are_clamped_position(num: nat, den: nat)
    requires
        num > 0,
        den > 0,
    ensures
        f64_bits_of_ratio(num, den) == if unclamped_bits(num, den) < pow2(52) {
            0
        } else if unclamped_bits(num, den) >= f64_infinity_bits() {
            f64_infinity_bits()
        } else {
            unclamped_bits(num, den) as nat
        },
{
    lemma_binade_exists(num, den);
    let e = binade(num, den);
    lemma_significand_range(num, den, e);
    lemma_pow2_unfold(53);
    lemma_pow2_pos(52);
    let m = rounded_significand(num, den, e);
    let e2 = if m == pow2(53) { e + 1 } else { e };
    let m2 = if m == pow2(53) { pow2(52) } else { m };
    let biased = e2 + 1023;
    let v = unclamped_bits(num, den);
    assert(v == biased * pow2(52) + m2 - pow2(52)) by (nonlinear_arith)
        requires
            v == (e + 1023) * pow2(52) + m - pow2(52),
            m == pow2(53) ==> e2 == e + 1 && m2 == pow2(52),
            m != pow2(53) ==> e2 == e && m2 == m,
            biased == e2 + 1023,
            pow2(53) == 2 * pow2(52),
    ;
    assert(pow2(52) <= m2 < pow2(53));
    assert((v < pow2(52)) == (biased <= 0)) by (nonlinear_arith)
        requires
            v == biased * pow2(52) + m2 - pow2(52),
            pow2(52) <= m2 < pow2(53),
            pow2(53) == 2 * pow2(52),
            pow2(52) > 0,
    ;
    assert((v >= f64_infinity_bits()) == (biased >= 2047)) by (nonlinear_arith)
        requires
            v == biased * pow2(52) + m2 - pow2(52),
            pow2(52) <= m2 < pow2(53),
            pow2(53) == 2 * pow2(52),
            pow2(52) > 0,
            f64_infinity_bits() == 2047 * pow2(52),
    ;
}

/// Conversion to `f64` is monotone: a smaller ratio never gives a larger bit pattern
/// (for nonnegative `f64` values, the order of bit patterns is the order of values).
pub proof fn lemma_f64_bits_of_ratio_monotone(n1: nat, d1: nat, n2: nat, d2: nat)
    requires
        d1 > 0,
        d2 > 0,
        n1 * d2 <= n2 * d1,
    ensures
        f64_bits_of_ratio(n1, d1) <= f64_bits_of_ratio(n2, d2),
{
    if n1 > 0 {
        if n2 == 0 {
            lemma_mul_strictly_positive(n1 as int, d2 as int);
        }
        lemma_binade_exists(n1, d1);
        lemma_binade_exists(n2, d2);
        let e1 = binade(n1, d1);
        let e2 = binade(n2, d2);
        lemma_significand_range(n1, d1, e1);
        lemma_significand_range(n2, d2, e2);
        // e1 <= e2: n2 / d2 reaches 2^e1 because n1 / d1 does
        let a = max0(-e1);
        let b = max0(e1);
        lemma_pow2_pos(a);
        lemma_pow2_pos(b);
        assert(n2 * pow2(a) >= d2 * pow2(b)) by (nonlinear_arith)
            requires
                n1 * pow2(a) >= d1 * pow2(b),
                n1 * d2 <= n2 * d1,
                d1 > 0,
                d2 > 0,
        ;
        if e2 < e1 {
            lemma_at_least_monotone(n2, d2, e2 + 1, e1);
        }
        lemma_pow2_unfold(53);
        lemma_pow2_pos(52);
        if e1 == e2 {
            let aa = max0(52 - e1);
            let bb = max0(e1 - 52);
            lemma_pow2_pos(aa);
            lemma_pow2_pos(bb);
            lemma_mul_strictly_positive(d1 as int, pow2(bb) as int);
            lemma_mul_strictly_positive(d2 as int, pow2(bb) as int);
            assert((n1 * pow2(aa)) * (d2 * pow2(bb)) <= (n2 * pow2(aa)) * (d1 * pow2(bb)))
                by (nonlinear_arith)
                requires
                    n1 * d2 <= n2 * d1,
            ;
            lemma_round_half_even_monotone(
                n1 * pow2(aa),
                d1 * pow2(bb),
                n2 * pow2(aa),
                d2 * pow2(bb),
            );
        } else {
            assert((e1 + 1023) * pow2(52) + pow2(53) <= (e2 + 1023) * pow2(52) + pow2(52))
                by (nonlinear_arith)
                requires
                    e1 < e2,
                    pow2(53) == 2 * pow2(52),
                    pow2(52) > 0,
            ;
        }
        assert(unclamped_bits(n1, d1) <= unclamped_bits(n2, d2));
        lemma_bits_are_clamped_position(n1, d1);
        lemma_bits_are_clamped_position(n2, d2);
    }
}

/// Powers of two used by the division, as literals.
proof fn lemma_pow2_literals()
    ensures
        pow2(64) == 0x1_0000_0000_0000_0000,
        pow2(127) == 0x8000_0000_0000_0000_0000_0000_0000_0000,
        pow2(128) == 0x1_0000_0000_0000_0000_0000_0000_0000_0000,
        pow2(52) == 0x10_0000_0000_0000,
        pow2(53) == 0x20_0000_0000_0000,
        pow2(54) == 0x40_0000_0000_0000,
{
    lemma2_to64();
    lemma2_to64_rest();
    lemma_pow2_adds(64, 63);
    lemma_pow2_adds(64, 64);
}

/// Shifting a `u128` left multiplies it by a power of two when nothing overflows.
proof fn lemma_u128_shl_is_mul(x: u128, s: u32)
    requires
        s < 128,
        x * pow2(s as nat) <= u128::MAX,
    ensures
        x << s == x * pow2(s as nat),
    decreases s,
{
    if s == 0 {
        assert(x << 0u32 == x) by (bit_vector);
        lemma2_to64();
    } else {
        let y = x << ((s - 1) as u32);
        assert(x << s == y << 1u32) by (bit_vector)
            requires
                0 < s < 128,
                y == x << ((s - 1) as u32),
        ;
        lemma_pow2_unfold(s as nat);
        lemma_pow2_pos((s - 1) as nat);
        assert(x * pow2((s - 1) as nat) <= x * pow2(s as nat)) by (nonlinear_arith)
            requires
                pow2(s as nat) == 2 * pow2((s - 1) as nat),
        ;
        lemma_u128_shl_is_mul(x, (s - 1) as u32);
        assert(x * pow2(s as nat) == 2 * (x * pow2((s - 1) as nat))) by (nonlinear_arith)
            requires
                pow2(s as nat) == 2 * pow2((s - 1) as nat),
        ;
        assert(y < 0x8000_0000_0000_0000_0000_0000_0000_0000u128) by {
            lemma_pow2_literals();
        }
        assert(y < 0x8000_0000_0000_0000_0000_0000_0000_0000u128 ==> y << 1u32 == 2 * y)
            by (bit_vector);
    }
}

/// One step of binary long division with a 129-bit doubled remainder: the top bit of
/// `n` tells whether `2 * n` overflows, and the masked shift gives `2 * n` modulo `2^128`.
proof fn lemma_long_division_step(n: u128)
    ensures
        ((n >> 127u32) != 0) == (n >= 0x8000_0000_0000_0000_0000_0000_0000_0000u128),
        n < 0x8000_0000_0000_0000_0000_0000_0000_0000u128 ==> ((n & !(1u128 << 127u32)) << 1u32)
            == 2 * n,
        n >= 0x8000_0000_0000_0000_0000_0000_0000_0000u128 ==> ((n & !(1u128 << 127u32))
            << 1u32) == 2 * (n - 0x8000_0000_0000_0000_0000_0000_0000_0000u128),
{
    assert(((n >> 127u32) != 0) == (n >= 0x8000_0000_0000_0000_0000_0000_0000_0000u128))
        by (bit_vector);
    assert(n < 0x8000_0000_0000_0000_0000_0000_0000_0000u128 ==> ((n & !(1u128 << 127u32))
        << 1u32) == 2 * n) by (bit_vector);
    assert(n >= 0x8000_0000_0000_0000_0000_0000_0000_0000u128 ==> ((n & !(1u128 << 127u32))
        << 1u32) == 2 * (n - 0x8000_0000_0000_0000_0000_0000_0000_0000u128)) by (bit_vector);
}

/// The quotient of the normalized long division has exactly 54 bits.
proof fn lemma_quotient_range(q: nat, n: nat, big_n: nat, big_d: nat, k: nat)
    requires
        q * big_d + n == big_n * pow2(k),
        n < big_d,
        pow2(127) <= big_n < pow2(128),
        pow2(127) <= big_d < pow2(128),
        (k == 53 && big_n >= big_d) || (k == 54 && big_n < big_d),
    ensures
        pow2(53) <= q < pow2(54),
{
    lemma_pow2_literals();
    lemma_pow2_unfold(54);
    if k == 53 {
        assert(pow2(53) * big_d < (q + 1) * big_d) by (nonlinear_arith)
            requires
                q * big_d + n == big_n * pow2(53),
                n < big_d,
                big_n >= big_d,
        ;
        assert(q * big_d < pow2(54) * big_d) by (nonlinear_arith)
            requires
                q * big_d + n == big_n * pow2(53),
                big_n < pow2(128),
                pow2(128) == 2 * pow2(127),
                pow2(127) <= big_d,
                pow2(54) == 2 * pow2(53),
                pow2(53) > 0,
        ;
    } else {
        assert(pow2(53) * big_d < (q + 1) * big_d) by (nonlinear_arith)
            requires
                q * big_d + n == big_n * pow2(54),
                n < big_d,
                pow2(54) == 2 * pow2(53),
                pow2(127) <= big_n,
                big_d < pow2(128),
                pow2(128) == 2 * pow2(127),
                pow2(53) > 0,
        ;
        assert(q * big_d < pow2(54) * big_d) by (nonlinear_arith)
            requires
                q * big_d + n == big_n * pow2(54),
                big_n < big_d,
                pow2(54) > 0,
        ;
    }
    lemma_mul_strict_inequality_converse(pow2(53) as int, (q + 1) as int, big_d as int);
    lemma_mul_strict_inequality_converse(q as int, pow2(54) as int, big_d as int);
}

/// Splitting a 54-bit long-division quotient into its top 53 bits and a rounding bit:
/// the top bits are the quotient at half the scale, and the rounding bit with the
/// final remainder decide round-half-even at that scale.
proof fn lemma_round_from_quotient(q: nat, n: nat, x: nat, big_d: nat)
    requires
        q * big_d + n == 2 * x,
        n < big_d,
    ensures
        x / big_d == q / 2,
        round_half_even(x, big_d) == if q % 2 == 1 && (n != 0 || (q / 2) % 2 == 1) {
            q / 2 + 1
        } else {
            q / 2
        },
{
    let m = q / 2;
    let rb = q % 2;
    assert(q == 2 * m + rb);
    assert(2 * x == 2 * (m * big_d) + rb * big_d + n) by (nonlinear_arith)
        requires
            q * big_d + n == 2 * x,
            q == 2 * m + rb,
    ;
    let r = (rb * big_d + n) / 2;
    assert(rb == 0 || rb == 1);
    assert(rb * big_d == if rb == 1 { big_d } else { 0 });
    assert(x == m * big_d + r);
    lemma_fundamental_div_mod_converse(x as int, big_d as int, m as int, r as int);
}

/// Packing a biased exponent and a 53-bit significand (implicit top bit dropped).
proof fn lemma_pack_bits(e: u64, m: u64)
    requires
        1 <= e <= 2046,
        0x10_0000_0000_0000u64 <= m < 0x20_0000_0000_0000u64,
    ensures
        ((e << 52u32) | (m & 0x000F_FFFF_FFFF_FFFFu64)) == e * 0x10_0000_0000_0000u64 + m
            - 0x10_0000_0000_0000u64,
{
    assert(((e << 52u32) | (m & 0x000F_FFFF_FFFF_FFFFu64)) == e * 0x10_0000_0000_0000u64 + m
        - 0x10_0000_0000_0000u64) by (bit_vector)
        requires
            1 <= e <= 2046,
            0x10_0000_0000_0000u64 <= m < 0x20_0000_0000_0000u64,
    ;
}

/// The leading zeros of a `u64` (as std's `u64::leading_zeros` counts them) bound
/// it by powers of two: `i < 2^(64 - lz)` and, for nonzero `i`, `2^(63 - lz) <= i`.
proof fn lemma_u64_leading_zeros_bounds(i: u64)
    ensures
        0 <= u64_leading_zeros(i) <= 64,
        i < pow2((64 - u64_leading_zeros(i)) as nat),
        u64_leading_zeros(i) < 64 ==> pow2((63 - u64_leading_zeros(i)) as nat) <= i,
{
    axiom_u64_leading_zeros(i);
    let lz = u64_leading_zeros(i);
    lemma_pow2_literals();
    if lz > 0 {
        let s = (64 - lz) as u64;
        assert(i >> s == 0);
        lemma_u64_shr_is_div(i, s);
        lemma_pow2_pos(s as nat);
        lemma_fundamental_div_mod(i as int, pow2(s as nat) as int);
        lemma_mod_bound(i as int, pow2(s as nat) as int);
    }
    if lz < 64 {
        let s = (63 - lz) as u64;
        let t = i >> s;
        assert(t & 1u64 != 0u64);
        assert(t & 1u64 != 0u64 ==> t != 0u64) by (bit_vector);
        lemma_u64_shr_is_div(i, s);
        lemma_pow2_pos(s as nat);
        lemma_fundamental_div_mod(i as int, pow2(s as nat) as int);
        lemma_mod_bound(i as int, pow2(s as nat) as int);
        lemma_mul_increases(t as int, pow2(s as nat) as int);
        lemma_mul_is_commutative(t as int, pow2(s as nat) as int);
    }
}

/// A `u128` is its high 64-bit half times `2^64` plus its low half.
proof fn lemma_u128_halves(x: u128)
    ensures
        (x >> 64u32) < 0x1_0000_0000_0000_0000u128,
        ((x >> 64u32) as u64) as u128 == x >> 64u32,
        x == (x >> 64u32) * 0x1_0000_0000_0000_0000u128 + (x as u64) as u128,
{
    assert((x >> 64u32) < 0x1_0000_0000_0000_0000u128) by (bit_vector);
    assert(((x >> 64u32) as u64) as u128 == x >> 64u32) by (bit_vector);
    assert(x == (x >> 64u32) * 0x1_0000_0000_0000_0000u128 + (x as u64) as u128) by (bit_vector);
}

/// The number of leading zero bits of `x`, counted on its two 64-bit halves with
/// `u64::leading_zeros`: `x < 2^(128 - r)` and, for nonzero `x`, `2^(127 - r) <= x`.
fn u128_leading_zeros(x: u128) -> (r: u32)
    ensures
        r <= 128,
        x < pow2((128 - r) as nat),
        r < 128 ==> pow2((127 - r) as nat) <= x,
{
    let hi = (x >> 64u32) as u64;
    let lo = x as u64;
    proof {
        lemma_u128_halves(x);
        lemma_u64_leading_zeros_bounds(hi);
        lemma_u64_leading_zeros_bounds(lo);
        lemma_pow2_literals();
    }
    if hi != 0 {
        let r = hi.leading_zeros();
        proof {
            let a = (64 - r) as nat;
            let b = (63 - r) as nat;
            lemma_pow2_adds(a, 64);
            lemma_pow2_adds(b, 64);
            assert(x < pow2(a) * pow2(64)) by (nonlinear_arith)
                requires
                    x == hi * pow2(64) + lo,
                    lo < pow2(64),
                    hi < pow2(a),
            ;
            assert(pow2(b) * pow2(64) <= x) by (nonlinear_arith)
                requires
                    x == hi * pow2(64) + lo,
                    pow2(b) <= hi,
            ;
            assert(a + 64 == 128 - r && b + 64 == 127 - r);
        }
        r
    } else {
        let r = lo.leading_zeros();
        64 + r
    }
}

/// Normalizing shift: `x << lz(x)` has its top bit set and equals `x * 2^lz(x)`.
proof fn lemma_normalize(x: u128, lz: u32)
    requires
        x > 0,
        lz <= 128,
        x < pow2((128 - lz) as nat),
        lz < 128 ==> pow2((127 - lz) as nat) <= x,
    ensures
        lz < 128,
        x << lz == x * pow2(lz as nat),
        pow2(127) <= x * pow2(lz as nat) < pow2(128),
{
    if lz == 128 {
        lemma2_to64();
    }
    lemma_pow2_adds((128 - lz) as nat, lz as nat);
    lemma_pow2_adds((127 - lz) as nat, lz as nat);
    lemma_pow2_pos(lz as nat);
    lemma_mul_strict_inequality(x as int, pow2((128 - lz) as nat) as int, pow2(lz as nat) as int);
    lemma_mul_inequality(pow2((127 - lz) as nat) as int, x as int, pow2(lz as nat) as int);
    lemma_pow2_literals();
    lemma_u128_shl_is_mul(x, lz);
}

/// Converts the ratio `num / den` of two `u128` values to the bit pattern of the
/// nearest `f64` (ties to even), by normalized binary long division.
/// `den == 0` gives `+inf`; results past the `f64` range give `+inf`, and results
/// below the normal range give `+0`.
pub fn u128_div_to_f64_bits(num: u128, den: u128) -> (bits: u64)
    ensures
        bits as nat == f64_bits_of_ratio(num as nat, den as nat),
{
    if den == 0 {
        proof {
            lemma_pow2_literals();
        }
        return 0x7FF0_0000_0000_0000;
    }
    if num == 0 {
        return 0;
    }
    let num_lz = u128_leading_zeros(num);
    let den_lz = u128_leading_zeros(den);
    proof {
        lemma_normalize(num, num_lz);
        lemma_normalize(den, den_lz);
        lemma_pow2_literals();
    }
    let mut n = num << num_lz;
    let d = den << den_lz;
    let ghost big_n: nat = n as nat;
    let ghost big_d: nat = d as nat;

    let mut q: u64 = 0;
    let exp_adj: i32 = if n >= d {
        n = n - d;
        q = 1;
        0
    } else {
        1
    };
    let iters: u32 = if exp_adj == 0 {
        53
    } else {
        54
    };
    proof {
        lemma2_to64();
    }
    let mut i: u32 = 0;
    while i < iters
        invariant
            pow2(127) <= d,
            pow2(127) == 0x8000_0000_0000_0000_0000_0000_0000_0000,
            pow2(54) == 0x40_0000_0000_0000,
            d == big_d,
            n < d,
            q * big_d + n == big_n * pow2(i as nat),
            q < pow2(i as nat + 1),
            i <= iters,
            iters == 53 || iters == 54,
        decreases iters - i,
    {
        proof {
            lemma_long_division_step(n);
            lemma_pow2_unfold(i as nat + 1);
            lemma_pow2_unfold(i as nat + 2);
            if i + 1 < 54 {
                lemma_pow2_strictly_increases(i as nat + 1, 54);
            }
            assert((q << 1u32) == 2 * q && ((q << 1u32) | 1u64) == 2 * q + 1) by (bit_vector)
                requires
                    q < 0x40_0000_0000_0000u64,
            ;
        }
        let ghost n0 = n;
        let ghost q0 = q;
        let msb_set = (n >> 127u32) != 0;
        n = (n & !(1u128 << 127u32)) << 1u32;
        if msb_set || n >= d {
            n = n.wrapping_sub(d);
            q = (q << 1u32) | 1;
            assert(n == 2 * n0 - d);
            assert(q * big_d + n == 2 * (q0 * big_d + n0)) by (nonlinear_arith)
                requires
                    q == 2 * q0 + 1,
                    n == 2 * n0 - big_d,
            ;
        } else {
            q = q << 1u32;
            assert(q * big_d + n == 2 * (q0 * big_d + n0)) by (nonlinear_arith)
                requires
                    q == 2 * q0,
                    n == 2 * n0,
            ;
        }
        assert(big_n * pow2(i as nat + 1) == 2 * (big_n * pow2(i as nat))) by (nonlinear_arith)
            requires
                pow2(i as nat + 1) == 2 * pow2(i as nat),
        ;
        i += 1;
    }
    proof {
        lemma_quotient_range(q as nat, n as nat, big_n, big_d, iters as nat);
    }
    // Relating the normalized division to `num / den`: the exponent `e` below is the
    // binade of `num / den`, and the rounded quotient is its significand.
    let ghost nl = num_lz as nat;
    let ghost dl = den_lz as nat;
    let ghost adj = exp_adj as nat;
    let ghost e: int = dl - nl - adj;
    let ghost x: nat = big_n * pow2(52 + adj);
    proof {
        lemma_pow2_unfold(nl + 1);
        lemma_pow2_unfold(dl + 1);
        assert(num * pow2(nl + 1) == 2 * big_n) by (nonlinear_arith)
            requires
                big_n == num * pow2(nl),
                pow2(nl + 1) == 2 * pow2(nl),
        ;
        assert(den * pow2(dl + 1) == 2 * big_d) by (nonlinear_arith)
            requires
                big_d == den * pow2(dl),
                pow2(dl + 1) == 2 * pow2(dl),
        ;
        if exp_adj == 0 {
            lemma_at_least_rescale(num as nat, den as nat, e, nl, dl);
            lemma_at_least_rescale(num as nat, den as nat, e + 1, nl, dl + 1);
        } else {
            lemma_at_least_rescale(num as nat, den as nat, e, nl + 1, dl);
            lemma_at_least_rescale(num as nat, den as nat, e + 1, nl, dl);
        }
        assert(in_binade(num as nat, den as nat, e));
        let e_chosen = binade(num as nat, den as nat);
        assert(in_binade(num as nat, den as nat, e_chosen));
        lemma_binade_unique(num as nat, den as nat, e, e_chosen);

        lemma_significand_rescale(num as nat, den as nat, e, nl + 52 + adj, dl);
        lemma_pow2_adds(nl, 52 + adj);
        lemma_mul_is_associative(num as int, pow2(nl) as int, pow2(52 + adj) as int);
        assert(rounded_significand(num as nat, den as nat, e) == round_half_even(x, big_d));

        lemma_pow2_unfold(53 + adj);
        assert(big_n * pow2(53 + adj) == 2 * x) by (nonlinear_arith)
            requires
                pow2(53 + adj) == 2 * pow2(52 + adj),
                x == big_n * pow2(52 + adj),
        ;
        lemma_round_from_quotient(q as nat, n as nat, x, big_d);
    }

    let round_bit = (q & 1) != 0;
    let mut mantissa = q >> 1;
    let sticky_bit = n != 0;
    proof {
        assert((q & 1u64) == q % 2 && (q >> 1u32) == q / 2) by (bit_vector);
        assert((mantissa & 1u64) == mantissa % 2) by (bit_vector);
    }

    let mut exp: i32 = (den_lz as i32 - num_lz as i32) + 1023 - exp_adj;
    if round_bit && (sticky_bit || (mantissa & 1) != 0) {
        mantissa += 1;
        if mantissa >= 0x20_0000_0000_0000 {
            assert(mantissa == 0x20_0000_0000_0000u64);
            assert(0x20_0000_0000_0000u64 >> 1u32 == 0x10_0000_0000_0000u64) by (bit_vector);
            mantissa >>= 1;
            exp += 1;
        }
    }
    proof {
        let m = rounded_significand(num as nat, den as nat, e);
        assert(m == pow2(53) ==> exp == e + 1 + 1023 && mantissa == pow2(52));
        assert(m != pow2(53) ==> exp == e + 1023 && mantissa == m);
    }

    if exp <= 0 {
        return 0;
    }
    if exp >= 2047 {
        return 0x7FF0_0000_0000_0000;
    }

    proof {
        lemma_pack_bits(exp as u64, mantissa);
    }
    let bits = ((exp as u64) << 52u32) | (mantissa & 0x000F_FFFF_FFFF_FFFF);
    bits
}

} // verus!
