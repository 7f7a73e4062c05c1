use vstd::arithmetic::div_mod::*;
use vstd::arithmetic::mul::*;
use vstd::prelude::*;

verus! {

/// Greatest common divisor by Euclid's recurrence: `gcd(a, 0) = a`,
/// `gcd(a, b) = gcd(b, a % b)`.
pub open spec fn spec_gcd(a: nat, b: nat) -> nat
    decreases b,
{
    if b == 0 {
        a
    } else {
        spec_gcd(b, a % b)
    }
}

/// `d` divides `a`. Zero divides only zero.
pub open spec fn divides(d: nat, a: nat) -> bool {
    if d == 0 {
        a == 0
    } else {
        a % d == 0
    }
}

/// Coefficients `(x, y)` of Bezout's identity `a * x + b * y == gcd(a, b)`.
pub open spec fn spec_bezout(a: nat, b: nat) -> (int, int)
    decreases b,
{
    if b == 0 {
        (1, 0)
    } else {
        let (x, y) = spec_bezout(b, a % b);
        (y, x - (a / b) as int * y)
    }
}

/// `a` is a multiple of `d` exactly when `a == (a / d) * d`.
proof fn lemma_multiple_is_quotient_times(a: nat, d: nat)
    requires
        d > 0,
        a % d == 0,
    ensures
        a == (a / d) * d,
{
    lemma_fundamental_div_mod(a as int, d as int);
    lemma_mul_is_commutative(d as int, (a / d) as int);
}

/// A multiple of a multiple of `d` is a multiple of `d`.
proof fn lemma_divides_mul(a: nat, k: nat, d: nat)
    requires
        d > 0,
        a % d == 0,
    ensures
        (a * k) % d == 0,
        (k * a) % d == 0,
{
    lemma_mul_mod_noop_left(a as int, k as int, d as int);
    lemma_mul_is_commutative(a as int, k as int);
    lemma_small_mod(0nat, d);
}

/// Bezout's identity for the Euclidean coefficients.
pub proof fn lemma_bezout(a: nat, b: nat)
    ensures
        a as int * spec_bezout(a, b).0 + b as int * spec_bezout(a, b).1 == spec_gcd(a, b) as int,
    decreases b,
{
    if b != 0 {
        lemma_bezout(b, a % b);
        let (x, y) = spec_bezout(b, a % b);
        let q = (a / b) as int;
        let r = (a % b) as int;
        lemma_fundamental_div_mod(a as int, b as int);
        assert(a as int * y + b as int * (x - q * y) == b as int * x + r * y) by (nonlinear_arith)
            requires
                a as int == b as int * q + r,
        ;
    }
}

/// `gcd(a, b)` divides `a` and `b`, and is positive unless both are zero.
pub proof fn lemma_gcd_divides(a: nat, b: nat)
    ensures
        divides(spec_gcd(a, b), a),
        divides(spec_gcd(a, b), b),
        spec_gcd(a, b) == 0 <==> (a == 0 && b == 0),
    decreases b,
{
    if b == 0 {
        if a > 0 {
            lemma_mod_self_0(a as int);
        }
    } else {
        lemma_gcd_divides(b, a % b);
        let g = spec_gcd(a, b);
        let r = a % b;
        lemma_mod_bound(a as int, b as int);
        // g divides b and r, hence a = (a / b) * b + r
        lemma_fundamental_div_mod(a as int, b as int);
        lemma_divides_mul(b, (a / b) as nat, g);
        lemma_mul_is_commutative(b as int, (a / b) as int);
        lemma_add_mod_noop(((a / b) * b) as int, r as int, g as int);
        lemma_small_mod(0nat, g);
    }
}

/// Every common divisor of `a` and `b` divides `gcd(a, b)`.
pub proof fn lemma_common_divisor_divides_gcd(a: nat, b: nat, d: nat)
    requires
        d > 0,
        a % d == 0,
        b % d == 0,
    ensures
        spec_gcd(a, b) % d == 0,
    decreases b,
{
    if b != 0 {
        let q = a / b;
        let r = a % b;
        lemma_fundamental_div_mod(a as int, b as int);
        lemma_divides_mul(b, q, d);
        lemma_mul_is_commutative(b as int, q as int);
        lemma_sub_mod_noop(a as int, (q * b) as int, d as int);
        lemma_small_mod(0nat, d);
        assert(r % d == 0);
        lemma_common_divisor_divides_gcd(b, r, d);
    }
}

/// A positive multiple of `d` is at least `d`.
proof fn lemma_divisor_le(a: nat, d: nat)
    requires
        d > 0,
        a > 0,
        a % d == 0,
    ensures
        d <= a,
{
    lemma_multiple_is_quotient_times(a, d);
    if a / d == 0 {
        assert(a == 0 * d);
    }
    lemma_mul_increases((a / d) as int, d as int);
    lemma_mul_is_commutative((a / d) as int, d as int);
}

/// `gcd` is symmetric.
pub proof fn lemma_gcd_symmetric(a: nat, b: nat)
    ensures
        spec_gcd(a, b) == spec_gcd(b, a),
{
    lemma_gcd_divides(a, b);
    lemma_gcd_divides(b, a);
    let g1 = spec_gcd(a, b);
    let g2 = spec_gcd(b, a);
    if g1 != 0 {
        lemma_common_divisor_divides_gcd(b, a, g1);
        lemma_common_divisor_divides_gcd(a, b, g2);
        lemma_divisor_le(g2, g1);
        lemma_divisor_le(g1, g2);
    }
}

/// Gauss's lemma: if `d` divides `b * c` and is coprime to `b`, it divides `c`.
pub proof fn lemma_gauss(d: nat, b: nat, c: nat)
    requires
        d > 0,
        (b * c) % d == 0,
        spec_gcd(d, b) == 1,
    ensures
        c % d == 0,
{
    lemma_bezout(d, b);
    let (x, y) = spec_bezout(d, b);
    let k = ((b * c) / d) as int;
    lemma_multiple_is_quotient_times(b * c, d);
    // c = c * (d x + b y) = d * (c x) + (b c) y = d * (c x + k y)
    assert(c as int == (c as int * x + k * y) * d as int) by (nonlinear_arith)
        requires
            d as int * x + b as int * y == 1,
            (b * c) as int == k * d as int,
    ;
    lemma_mod_multiples_basic(c as int * x + k * y, d as int);
}

/// Dividing `a` and `b` by their gcd leaves coprime numbers.
pub proof fn lemma_gcd_quotients_coprime(a: nat, b: nat)
    requires
        a != 0 || b != 0,
    ensures
        spec_gcd(a / spec_gcd(a, b), b / spec_gcd(a, b)) == 1,
{
    let g = spec_gcd(a, b);
    lemma_gcd_divides(a, b);
    let a1 = a / g;
    let b1 = b / g;
    lemma_multiple_is_quotient_times(a, g);
    lemma_multiple_is_quotient_times(b, g);
    assert(a1 != 0 || b1 != 0);
    lemma_gcd_divides(a1, b1);
    let h = spec_gcd(a1, b1);
    // h * g divides a and b, hence divides g
    lemma_multiple_is_quotient_times(a1, h);
    lemma_multiple_is_quotient_times(b1, h);
    lemma_mul_strictly_positive(h as int, g as int);
    assert(a == ((a1 / h) * (h * g))) by {
        lemma_mul_is_associative((a1 / h) as int, h as int, g as int);
    }
    assert(b == ((b1 / h) * (h * g))) by {
        lemma_mul_is_associative((b1 / h) as int, h as int, g as int);
    }
    lemma_mod_multiples_basic((a1 / h) as int, (h * g) as int);
    lemma_mod_multiples_basic((b1 / h) as int, (h * g) as int);
    lemma_common_divisor_divides_gcd(a, b, h * g);
    lemma_divisor_le(g, h * g);
    if h > 1 {
        lemma_mul_strict_inequality(1, h as int, g as int);
    }
}

/// A fraction in lowest terms with a positive denominator is unique.
pub proof fn lemma_lowest_terms_unique(x1: nat, y1: nat, x2: nat, y2: nat)
    requires
        y1 > 0,
        y2 > 0,
        x1 * y2 == x2 * y1,
        spec_gcd(x1, y1) == 1,
        spec_gcd(x2, y2) == 1,
    ensures
        x1 == x2,
        y1 == y2,
{
    lemma_gcd_symmetric(x1, y1);
    lemma_gcd_symmetric(x2, y2);
    // y1 divides x1 * y2
    lemma_mod_multiples_basic(x2 as int, y1 as int);
    lemma_gauss(y1, x1, y2);
    lemma_mod_multiples_basic(x1 as int, y2 as int);
    lemma_gauss(y2, x2, y1);
    lemma_divisor_le(y2, y1);
    lemma_divisor_le(y1, y2);
    lemma_mul_is_commutative(x1 as int, y1 as int);
    lemma_mul_is_commutative(x2 as int, y1 as int);
    lemma_mul_equality_converse(y1 as int, x1 as int, x2 as int);
}

} // verus!
