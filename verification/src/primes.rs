//! Elementary number theory: primality, the greatest common divisor,
//! Bezout coefficients and Euclid's lemma. These back the factor-recovery
//! laws: a semiprime has no divisor below its smaller prime.

use crate::model::{lemma_divides_transitive, lemma_exact_div};
use vstd::arithmetic::div_mod::{
    lemma_fundamental_div_mod, lemma_mod_multiples_basic, lemma_mod_self_0, lemma_small_mod,
};
use vstd::arithmetic::mul::{lemma_mul_inequality, lemma_mul_strictly_positive};
use vstd::prelude::*;

verus! {

/// A prime: at least 2, and no smaller value of 2 or more divides it.
pub open spec fn is_prime(p: nat) -> bool {
    2 <= p && forall|d: nat| 2 <= d < p ==> #[trigger] (p % d) != 0
}

/// Greatest common divisor by Euclid's algorithm.
pub open spec fn gcd(a: nat, b: nat) -> nat
    decreases b,
{
    if b == 0 {
        a
    } else {
        gcd(b, a % b)
    }
}

/// An integer combination of two values; names the Bezout form so that it
/// can carry quantifiers.
pub open spec fn lin(a: nat, b: nat, x: int, y: int) -> int {
    a * x + b * y
}

/// A common divisor of two values divides any combination `q * x + y`.
proof fn lemma_divides_combination(g: nat, x: nat, y: nat, q: nat)
    requires
        1 <= g,
        x % g == 0,
        y % g == 0,
    ensures
        ((q * x + y) as nat) % g == 0,
{
    lemma_exact_div(x, g);
    lemma_exact_div(y, g);
    let xx = x / g;
    let yy = y / g;
    assert(q * x + y == g * (q * xx + yy)) by (nonlinear_arith)
        requires
            x == g * xx,
            y == g * yy,
    ;
    lemma_mod_multiples_basic((q * xx + yy) as int, g as int);
    assert((g * (q * xx + yy)) as int == ((q * xx + yy) as int) * (g as int)) by (nonlinear_arith);
}

/// The gcd is positive and divides both of its arguments.
pub proof fn lemma_gcd_divides(a: nat, b: nat)
    requires
        1 <= a,
    ensures
        1 <= gcd(a, b),
        a % gcd(a, b) == 0,
        b % gcd(a, b) == 0,
    decreases b,
{
    if b == 0 {
        lemma_mod_self_0(a as int);
        lemma_small_mod(0nat, a);
    } else {
        lemma_gcd_divides(b, a % b);
        let g = gcd(b, a % b);
        assert(gcd(a, b) == g);
        lemma_fundamental_div_mod(a as int, b as int);
        let q = a / b;
        assert(a == q * b + (a % b)) by {
            vstd::arithmetic::mul::lemma_mul_is_commutative(b as int, q as int);
        }
        lemma_divides_combination(g, b, a % b, q);
    }
}

/// Bezout's identity: the gcd is an integer combination of its arguments.
pub proof fn lemma_bezout(a: nat, b: nat)
    requires
        1 <= a,
    ensures
        exists|x: int, y: int| #[trigger] lin(a, b, x, y) == gcd(a, b),
    decreases b,
{
    if b == 0 {
        assert(lin(a, b, 1int, 0int) == gcd(a, b)) by (nonlinear_arith)
            requires
                b == 0,
                gcd(a, b) == a,
        ;
    } else {
        lemma_bezout(b, a % b);
        let (x2, y2) = choose|x: int, y: int| #[trigger] lin(b, a % b, x, y) == gcd(b, a % b);
        lemma_fundamental_div_mod(a as int, b as int);
        let q: int = (a / b) as int;
        assert(a % b == a - q * b) by {
            vstd::arithmetic::mul::lemma_mul_is_commutative(b as int, q);
        }
        assert(lin(a, b, y2, x2 - q * y2) == lin(b, a % b, x2, y2)) by (nonlinear_arith)
            requires
                a % b == a - q * b,
        ;
        assert(lin(a, b, y2, x2 - q * y2) == gcd(a, b));
    }
}

/// A divisor of a positive value is no larger than it.
pub proof fn lemma_divisor_le(d: nat, n: nat)
    requires
        1 <= d,
        1 <= n,
        n % d == 0,
    ensures
        d <= n,
{
    lemma_exact_div(n, d);
    lemma_mul_inequality(1, (n / d) as int, d as int);
    vstd::arithmetic::mul::lemma_mul_is_commutative(d as int, (n / d) as int);
}

/// The only divisors of a prime are 1 and the prime itself.
pub proof fn lemma_prime_divisor(p: nat, d: nat)
    requires
        is_prime(p),
        1 <= d,
        p % d == 0,
    ensures
        d == 1 || d == p,
{
    lemma_divisor_le(d, p);
    if 2 <= d < p {
        assert(p % d != 0);
    }
}

/// Euclid's lemma: a prime that divides a product divides one of the
/// factors.
pub proof fn lemma_euclid(p: nat, a: nat, b: nat)
    requires
        is_prime(p),
        1 <= a,
        (a * b) % p == 0,
        a % p != 0,
    ensures
        b % p == 0,
{
    // gcd(p, a) divides p, so it is 1 or p; p itself does not divide a.
    lemma_gcd_divides(p, a);
    let g = gcd(p, a);
    lemma_prime_divisor(p, g);
    if g == p {
        assert(a % p == 0);
    }
    assert(g == 1);
    lemma_bezout(p, a);
    let (x, y) = choose|x: int, y: int| #[trigger] lin(p, a, x, y) == gcd(p, a);
    assert(p * x + a * y == 1);
    lemma_exact_div((a * b) as nat, p);
    let k = ((a * b) as nat) / p;
    assert(a * b == p * k);
    let m: int = b * x + k * y;
    assert(b == p * m) by (nonlinear_arith)
        requires
            p * x + a * y == 1,
            a * b == p * k,
            m == b * x + k * y,
    ;
    lemma_mod_multiples_basic(m, p as int);
    assert((p as int) * m == m * (p as int)) by (nonlinear_arith);
}

/// Every value of at least 2 has a prime divisor.
pub proof fn lemma_exists_prime_divisor(t: nat)
    requires
        2 <= t,
    ensures
        exists|s: nat| #[trigger] is_prime(s) && t % s == 0,
    decreases t,
{
    if is_prime(t) {
        lemma_mod_self_0(t as int);
        assert(is_prime(t) && t % t == 0);
    } else {
        let d = choose|d: nat| 2 <= d < t && #[trigger] (t % d) == 0;
        assert(2 <= d < t && t % d == 0);
        lemma_exists_prime_divisor(d);
        let s = choose|s: nat| #[trigger] is_prime(s) && d % s == 0;
        lemma_divides_transitive(s, d, t);
        assert(is_prime(s) && t % s == 0);
    }
}

/// A product of two primes has no divisor of 2 or more below the smaller
/// prime.
pub proof fn lemma_semiprime_no_small_divisor(p: nat, q: nat, t: nat)
    requires
        is_prime(p),
        is_prime(q),
        p <= q,
        2 <= t < p,
    ensures
        (p * q) % t != 0,
{
    lemma_mul_strictly_positive(p as int, q as int);
    if (p * q) % t == 0 {
        lemma_exists_prime_divisor(t);
        let s = choose|s: nat| #[trigger] is_prime(s) && t % s == 0;
        lemma_divisor_le(s, t);
        lemma_divides_transitive(s, t, p * q);
        if p % s == 0 {
            lemma_prime_divisor(p, s);
        } else {
            lemma_euclid(s, p, q);
            lemma_prime_divisor(q, s);
        }
    }
}

} // verus!
