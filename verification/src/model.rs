//! Mathematical model of bounded trial division.
//!
//! A factorization is modelled as a sequence of `(factor, exponent)` pairs.
//! `factor_seq(n, b)` is the decomposition that trial division produces when
//! it strips the factor 2 first and then scans the odd candidates `3, 5, ...`
//! strictly below the bound `b`, folding whatever remainder is left in as a
//! final entry.

use vstd::arithmetic::div_mod::{
    lemma_div_decreases, lemma_div_pos_is_pos, lemma_fundamental_div_mod, lemma_mod_multiples_basic,
};
use vstd::arithmetic::mul::lemma_mul_is_associative;
use vstd::arithmetic::power::{lemma_pow_positive, pow};
use vstd::arithmetic::power2::pow2;
use vstd::prelude::*;

verus! {

/// Product of `factor ^ exponent` over a sequence of entries.
pub open spec fn prod(s: Seq<(nat, nat)>) -> int
    decreases s.len(),
{
    if s.len() == 0 {
        1
    } else {
        prod(s.drop_last()) * pow(s.last().0 as int, s.last().1)
    }
}

/// How many times `f` divides `n` (the multiplicity of `f` in `n`).
pub open spec fn strip_count(n: nat, f: nat) -> nat
    decreases n,
    via strip_count_decreases
{
    if f < 2 || n == 0 || n % f != 0 {
        0
    } else {
        1 + strip_count(n / f, f)
    }
}

#[via_fn]
proof fn strip_count_decreases(n: nat, f: nat) {
    if !(f < 2 || n == 0 || n % f != 0) {
        lemma_div_decreases(n as int, f as int);
    }
}

/// `n` with every copy of the factor `f` divided out.
pub open spec fn strip(n: nat, f: nat) -> nat
    decreases n,
    via strip_decreases
{
    if f < 2 || n == 0 || n % f != 0 {
        n
    } else {
        strip(n / f, f)
    }
}

#[via_fn]
proof fn strip_decreases(n: nat, f: nat) {
    if !(f < 2 || n == 0 || n % f != 0) {
        lemma_div_decreases(n as int, f as int);
    }
}

/// Number of candidates not yet visited: drives termination of `trial_pass`.
pub open spec fn gap(i: nat, b: nat) -> nat {
    if i <= b {
        (b - i) as nat
    } else {
        0
    }
}

/// One scan over the candidates `i, i + 2, ...` strictly below `b`:
/// the entries recorded for every candidate that divides the running
/// remainder, paired with the remainder left when the scan is done.
pub open spec fn trial_pass(m: nat, i: nat, b: nat) -> (Seq<(nat, nat)>, nat)
    decreases gap(i, b),
{
    if i >= b {
        (Seq::empty(), m)
    } else if 2 <= i && 1 <= m && m % i == 0 {
        let rec = trial_pass(strip(m, i), i + 2, b);
        (seq![(i, strip_count(m, i))].add(rec.0), rec.1)
    } else {
        trial_pass(m, i + 2, b)
    }
}

/// Floor of the base-2 logarithm; 0 for inputs below 2.
pub open spec fn log2_floor(n: nat) -> nat
    decreases n,
{
    if n < 2 {
        0
    } else {
        1 + log2_floor(n / 2)
    }
}

/// The power-of-two candidate bound `2 ^ ceil((log2_floor(n) + 1) / 2)`
/// rounded the way the scan uses it: at least the integer square root of `n`.
pub open spec fn search_bound(n: nat) -> nat {
    pow2(((1 + log2_floor(n)) / 2) as nat)
}

/// Bound used by the sequential scan: computed before the factor 2 is stripped.
pub open spec fn serial_search_bound(n: nat) -> nat {
    search_bound(n)
}

/// Bound used by the parallel scan: computed after the factor 2 is stripped.
pub open spec fn parallel_search_bound(n: nat) -> nat {
    search_bound(strip(n, 2))
}

/// The complete decomposition that bounded trial division yields for `n`:
/// the power of 2, the entries of the odd scan below `b`, and the leftover
/// remainder as a final entry when it is larger than 1.
pub open spec fn factor_seq(n: nat, b: nat) -> Seq<(nat, nat)> {
    let k = strip_count(n, 2);
    let head: Seq<(nat, nat)> = if k > 0 {
        seq![(2nat, k)]
    } else {
        Seq::empty()
    };
    let pass = trial_pass(strip(n, 2), 3, b);
    let tail: Seq<(nat, nat)> = if pass.1 > 1 {
        seq![(pass.1, 1nat)]
    } else {
        Seq::empty()
    };
    head + pass.0 + tail
}

/// Whether some entry of `s` carries the factor `f`.
pub open spec fn has_key(s: Seq<(nat, nat)>, f: nat) -> bool {
    exists|j: int| 0 <= j < s.len() && (#[trigger] s[j]).0 == f
}

/// Dividing out one copy of `f` accounts for exactly one factor:
/// `f * (n / f) == n` when `f` divides `n`.
pub proof fn lemma_exact_div(n: nat, f: nat)
    requires
        1 <= f,
        n % f == 0,
    ensures
        f * (n / f) == n,
        n >= 1 ==> n / f >= 1,
{
    lemma_fundamental_div_mod(n as int, f as int);
    if n >= 1 {
        lemma_div_pos_is_pos(n as int, f as int);
        if n / f == 0 {
            assert(n == f * (n / f) + n % f);
        }
    }
}

/// Divisibility carries across a chain: if `a` divides `b` and `b` divides
/// `c`, then `a` divides `c`.
pub proof fn lemma_divides_transitive(a: nat, b: nat, c: nat)
    requires
        1 <= a,
        1 <= b,
        b % a == 0,
        c % b == 0,
    ensures
        c % a == 0,
{
    lemma_exact_div(b, a);
    lemma_exact_div(c, b);
    let p = b / a;
    let q = c / b;
    assert(c == (a * p) * q);
    lemma_mul_is_associative(a as int, p as int, q as int);
    assert(c == a * (p * q));
    lemma_mod_multiples_basic((p * q) as int, a as int);
    assert((a * (p * q)) % (a as nat) == ((p * q) * a) % (a as nat)) by {
        vstd::arithmetic::mul::lemma_mul_is_commutative(a as int, (p * q) as int);
    }
}

/// The product of a one-entry sequence is that entry's prime power.
pub proof fn lemma_prod_singleton(f: nat, e: nat)
    ensures
        prod(seq![(f, e)]) == pow(f as int, e),
{
    let s: Seq<(nat, nat)> = seq![(f, e)];
    assert(s.len() == 1);
    assert(s.last() == (f, e));
    assert(s.drop_last() =~= Seq::<(nat, nat)>::empty());
    assert(prod(s.drop_last()) == 1);
    assert(prod(s) == 1 * pow(f as int, e));
}

/// Core identity of the strip operation: the stripped copies of `f`,
/// multiplied back into what is left, restore `n`; and what is left is
/// positive and free of the factor `f`.
pub proof fn lemma_strip_props(n: nat, f: nat)
    requires
        1 <= n,
        2 <= f,
    ensures
        pow(f as int, strip_count(n, f)) * strip(n, f) == n,
        1 <= strip(n, f),
        strip(n, f) % f != 0,
        n % strip(n, f) == 0,
    decreases n,
{
    if n % f != 0 {
        assert(strip_count(n, f) == 0);
        assert(pow(f as int, 0) == 1) by {
            vstd::arithmetic::power::lemma_pow0(f as int);
        }
        assert(n % n == 0) by {
            lemma_mod_multiples_basic(1int, n as int);
        }
    } else {
        lemma_exact_div(n, f);
        let n2 = n / f;
        lemma_div_decreases(n as int, f as int);
        lemma_strip_props(n2, f);
        assert(strip(n, f) == strip(n2, f));
        let c2 = strip_count(n2, f);
        assert(strip_count(n, f) == 1 + c2);
        assert(pow(f as int, (1 + c2) as nat) == f * pow(f as int, c2)) by {
            reveal_with_fuel(pow, 2);
        }
        let s = strip(n2, f);
        assert(pow(f as int, c2) * s == n2);
        assert((f * pow(f as int, c2)) * s == f * (pow(f as int, c2) * s)) by {
            lemma_mul_is_associative(f as int, pow(f as int, c2), s as int);
        }
        assert(pow(f as int, strip_count(n, f)) * strip(n, f) == n);
        assert(n % n2 == 0) by {
            lemma_mod_multiples_basic(f as int, n2 as int);
            vstd::arithmetic::mul::lemma_mul_is_commutative(f as int, n2 as int);
        }
        lemma_divides_transitive(s, n2, n);
    }
}

/// The product of entries distributes over concatenation.
pub proof fn lemma_prod_app(a: Seq<(nat, nat)>, b: Seq<(nat, nat)>)
    ensures
        prod(a + b) == prod(a) * prod(b),
    decreases b.len(),
{
    if b.len() == 0 {
        assert(a + b =~= a);
    } else {
        lemma_prod_app(a, b.drop_last());
        assert((a + b).drop_last() =~= a + b.drop_last());
        assert((a + b).last() == b.last());
        lemma_mul_is_associative(prod(a), prod(b.drop_last()), pow(b.last().0 as int, b.last().1));
    }
}

/// A scan never loses anything: the product of the entries it records,
/// times the remainder it leaves, equals the value it started from.
pub proof fn lemma_trial_pass_product(m: nat, i: nat, b: nat)
    requires
        1 <= m,
    ensures
        prod(trial_pass(m, i, b).0) * trial_pass(m, i, b).1 == m,
        1 <= trial_pass(m, i, b).1,
    decreases gap(i, b),
{
    if i >= b {
        assert(trial_pass(m, i, b) == (Seq::<(nat, nat)>::empty(), m));
        assert(prod(Seq::<(nat, nat)>::empty()) == 1);
    } else if 2 <= i && m % i == 0 {
        lemma_strip_props(m, i);
        let m2 = strip(m, i);
        let c = strip_count(m, i);
        lemma_trial_pass_product(m2, i + 2, b);
        let rec = trial_pass(m2, i + 2, b);
        let e: Seq<(nat, nat)> = seq![(i, c)];
        lemma_prod_singleton(i, c);
        lemma_prod_app(e, rec.0);
        assert(trial_pass(m, i, b).0 == e.add(rec.0));
        assert(prod(e.add(rec.0)) * rec.1 == (pow(i as int, c) * prod(rec.0)) * rec.1);
        assert((pow(i as int, c) * prod(rec.0)) * rec.1 == pow(i as int, c) * (prod(rec.0)
            * rec.1)) by {
            lemma_mul_is_associative(pow(i as int, c), prod(rec.0), rec.1 as int);
        }
        assert(pow(i as int, c) * m2 == m);
    } else {
        lemma_trial_pass_product(m, i + 2, b);
    }
}

/// A scan that starts from 1 records nothing and leaves 1.
pub proof fn lemma_trial_pass_one(i: nat, b: nat)
    ensures
        trial_pass(1, i, b) == (Seq::<(nat, nat)>::empty(), 1nat),
    decreases gap(i, b),
{
    if i >= b {
    } else {
        if 2 <= i {
            assert(1nat % i == 1) by {
                vstd::arithmetic::div_mod::lemma_small_mod(1nat, i);
            }
        }
        lemma_trial_pass_one(i + 2, b);
    }
}

/// Candidates that do not divide the remainder leave no trace: the scan from
/// `i` equals the scan from `j` when no odd candidate in `[i, j)` divides `m`.
pub proof fn lemma_trial_pass_skip(m: nat, i: nat, j: nat, b: nat)
    requires
        i % 2 == 1,
        j % 2 == 1,
        i <= j,
        forall|t: nat| i <= t < j && t % 2 == 1 ==> #[trigger] (m % t) != 0,
    ensures
        trial_pass(m, i, b) == trial_pass(m, j, b),
    decreases j - i,
{
    if i < j {
        assert(m % i != 0);
        if i < b {
            assert(trial_pass(m, i, b) == trial_pass(m, i + 2, b));
        } else {
            assert(trial_pass(m, i, b) == (Seq::<(nat, nat)>::empty(), m));
            assert(trial_pass(m, i + 2, b) == (Seq::<(nat, nat)>::empty(), m));
        }
        assert((i + 2) % 2 == 1);
        lemma_trial_pass_skip(m, (i + 2) as nat, j, b);
    }
}

/// When no odd candidate strictly below `b` divides `m`, the scan records
/// nothing and leaves `m` unchanged.
pub proof fn lemma_trial_pass_none(m: nat, i: nat, b: nat)
    requires
        i % 2 == 1,
        forall|t: nat| i <= t < b && t % 2 == 1 ==> #[trigger] (m % t) != 0,
    ensures
        trial_pass(m, i, b) == (Seq::<(nat, nat)>::empty(), m),
    decreases gap(i, b),
{
    if i < b {
        assert(m % i != 0);
        lemma_trial_pass_none(m, (i + 2) as nat, b);
    }
}

/// Raising a larger base to the same exponent gives at least as much.
pub proof fn lemma_pow_base_le(b1: nat, b2: nat, e: nat)
    requires
        1 <= b1 <= b2,
    ensures
        pow(b1 as int, e) <= pow(b2 as int, e),
    decreases e,
{
    reveal(pow);
    if e > 0 {
        let e1 = (e - 1) as nat;
        lemma_pow_base_le(b1, b2, e1);
        lemma_pow_positive(b1 as int, e1);
        lemma_pow_positive(b2 as int, e1);
        assert(b1 * pow(b1 as int, e1) <= b2 * pow(b2 as int, e1)) by (nonlinear_arith)
            requires
                1 <= b1 <= b2,
                1 <= pow(b1 as int, e1) <= pow(b2 as int, e1),
        ;
        assert(pow(b1 as int, e) == b1 * pow(b1 as int, e1));
        assert(pow(b2 as int, e) == b2 * pow(b2 as int, e1));
    }
}

/// The multiplicity of any factor of at least 2 is below 127 for inputs in
/// the 127-bit range.
pub proof fn lemma_strip_count_small(n: nat, f: nat)
    requires
        1 <= n,
        n < pow2(127),
        2 <= f,
    ensures
        strip_count(n, f) < 127,
{
    let c = strip_count(n, f);
    lemma_strip_props(n, f);
    let s = strip(n, f);
    assert(pow(f as int, c) >= 1) by {
        lemma_pow_positive(f as int, c);
    }
    assert(pow(f as int, c) <= n) by (nonlinear_arith)
        requires
            pow(f as int, c) * s == n,
            1 <= s,
            pow(f as int, c) >= 1,
    ;
    lemma_pow_base_le(2, f, c);
    assert(pow2(c) == pow(2int, c)) by {
        vstd::arithmetic::power2::lemma_pow2(c);
    }
    if c >= 127 {
        if c > 127 {
            vstd::arithmetic::power2::lemma_pow2_strictly_increases(127, c);
        }
        assert(pow2(127) <= pow2(c));
        assert(false);
    }
}

/// A value below `2 ^ e` has a base-2 logarithm below `e`.
pub proof fn lemma_log2_floor_lt(n: nat, e: nat)
    requires
        1 <= e,
        n < pow2(e),
    ensures
        log2_floor(n) < e,
    decreases n,
{
    if n < 2 {
    } else {
        vstd::arithmetic::power2::lemma_pow2_unfold(e);
        if e == 1 {
            assert(pow2(1) == 2) by {
                vstd::arithmetic::power2::lemma2_to64();
            }
            assert(false);
        }
        assert(n / 2 < pow2((e - 1) as nat));
        lemma_log2_floor_lt(n / 2, (e - 1) as nat);
    }
}

/// The value of `2 ^ 127`, the exclusive cap on accepted inputs.
pub proof fn lemma_pow2_127()
    ensures
        pow2(127) == 0x8000_0000_0000_0000_0000_0000_0000_0000,
{
    vstd::arithmetic::power2::lemma_pow2_adds(63, 64);
    vstd::arithmetic::power2::lemma2_to64();
    vstd::arithmetic::power2::lemma2_to64_rest();
}

/// Bounded trial division is complete in the multiplicative sense: the
/// product of every recorded `factor ^ exponent` equals the number itself.
pub proof fn lemma_factor_seq_product(n: nat, b: nat)
    requires
        1 <= n,
    ensures
        prod(factor_seq(n, b)) == n,
{
    let k = strip_count(n, 2);
    let m = strip(n, 2);
    lemma_strip_props(n, 2);
    let head: Seq<(nat, nat)> = if k > 0 {
        seq![(2nat, k)]
    } else {
        Seq::empty()
    };
    assert(prod(head) == pow(2int, k)) by {
        if k > 0 {
            lemma_prod_singleton(2nat, k);
        } else {
            vstd::arithmetic::power::lemma_pow0(2int);
        }
    }
    lemma_trial_pass_product(m, 3, b);
    let pass = trial_pass(m, 3, b);
    let r = pass.1;
    let tail: Seq<(nat, nat)> = if r > 1 {
        seq![(r, 1nat)]
    } else {
        Seq::empty()
    };
    assert(prod(tail) == r) by {
        if r > 1 {
            lemma_prod_singleton(r, 1nat);
            vstd::arithmetic::power::lemma_pow1(r as int);
        }
    }
    lemma_prod_app(head, pass.0);
    lemma_prod_app(head + pass.0, tail);
    assert(factor_seq(n, b) == (head + pass.0) + tail);
    assert(prod(factor_seq(n, b)) == (prod(head) * prod(pass.0)) * prod(tail));
    assert((pow(2int, k) * prod(pass.0)) * (r as int) == pow(2int, k) * (prod(pass.0)
        * (r as int))) by {
        lemma_mul_is_associative(pow(2int, k), prod(pass.0), r as int);
    }
    assert(prod(pass.0) * r == m);
    assert(pow(2int, k) * m == n);
}

} // verus!
