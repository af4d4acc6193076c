//! Laws of the factorizers, stated over the model both engines are pinned
//! to: recovery of the prime factors of semiprimes below the search bound,
//! agreement of the two algorithms, and determinism of the parallel one.

use crate::factorization::Factorization;
use crate::model::{
    factor_seq, lemma_trial_pass_one, lemma_trial_pass_skip, parallel_search_bound,
    serial_search_bound, strip, strip_count, trial_pass,
};
use crate::primes::{is_prime, lemma_semiprime_no_small_divisor};
use vstd::arithmetic::div_mod::{
    lemma_div_by_self, lemma_div_multiples_vanish, lemma_mod_multiples_basic, lemma_mod_self_0,
    lemma_mul_mod_noop_general, lemma_small_mod,
};
use vstd::arithmetic::mul::{lemma_mul_is_commutative, lemma_mul_strictly_positive};
use vstd::prelude::*;

verus! {

/// A scan that reaches an odd prime `q` from any odd start at or below it
/// records exactly `(q, 1)` and leaves 1: no candidate before `q` divides
/// a prime.
proof fn lemma_prime_pass(q: nat, i: nat, b: nat)
    requires
        is_prime(q),
        q % 2 == 1,
        i % 2 == 1,
        3 <= i <= q,
        q < b,
    ensures
        trial_pass(q, i, b) == (seq![(q, 1nat)], 1nat),
{
    assert forall|t: nat| i <= t < q && t % 2 == 1 implies #[trigger] (q % t) != 0 by {
        assert(q % t != 0);
    }
    lemma_trial_pass_skip(q, i, q, b);
    lemma_mod_self_0(q as int);
    assert(strip_count(q, q) == 1 && strip(q, q) == 1) by {
        lemma_div_by_self(q as int);
        lemma_small_mod(1nat, q);
        assert(strip_count(1nat, q) == 0);
        assert(strip(1nat, q) == 1);
    }
    lemma_trial_pass_one((q + 2) as nat, b);
    let rec = trial_pass(1nat, (q + 2) as nat, b);
    assert(trial_pass(q, q, b) == (seq![(q, 1nat)].add(rec.0), rec.1));
    assert(seq![(q, 1nat)].add(rec.0) =~= seq![(q, 1nat)]);
}

/// The odd scan of a product of two odd primes at or below each other (and
/// below the bound) records the two primes with their multiplicities and
/// leaves 1.
proof fn lemma_odd_semiprime_pass(p: nat, q: nat, b: nat)
    requires
        is_prime(p),
        is_prime(q),
        p <= q,
        p % 2 == 1,
        q < b,
    ensures
        trial_pass(p * q, 3, b) == (
            if p == q {
                seq![(p, 2nat)]
            } else {
                seq![(p, 1nat), (q, 1nat)]
            },
            1nat,
        ),
{
    lemma_mul_strictly_positive(p as int, q as int);
    let n = p * q;
    assert(q % 2 == 1) by {
        if q > 2 {
            assert(q % 2 != 0);
        }
    }
    assert forall|t: nat| 3 <= t < p && t % 2 == 1 implies #[trigger] (n % t) != 0 by {
        lemma_semiprime_no_small_divisor(p, q, t);
    }
    lemma_trial_pass_skip(n, 3, p, b);
    assert(n % p == 0) by {
        lemma_mod_multiples_basic(q as int, p as int);
        lemma_mul_is_commutative(p as int, q as int);
    }
    assert(n / p == q) by {
        lemma_div_multiples_vanish(q as int, p as int);
        lemma_mul_is_commutative(p as int, q as int);
    }
    if p == q {
        lemma_mod_self_0(q as int);
        lemma_div_by_self(q as int);
        lemma_small_mod(1nat, q);
        assert(strip_count(1nat, q) == 0 && strip(1nat, q) == 1);
        assert(strip_count(q, p) == 1 + strip_count(1nat, q));
        assert(strip(q, p) == strip(1nat, q));
        assert(strip_count(q, p) == 1 && strip(q, p) == 1);
        assert(strip_count(n, p) == 1 + strip_count(q, p));
        assert(strip(n, p) == strip(q, p));
        assert(strip_count(n, p) == 2 && strip(n, p) == 1);
        lemma_trial_pass_one((p + 2) as nat, b);
        let rec = trial_pass(1nat, (p + 2) as nat, b);
        assert(trial_pass(n, p, b) == (seq![(p, 2nat)].add(rec.0), rec.1));
        assert(seq![(p, 2nat)].add(rec.0) =~= seq![(p, 2nat)]);
    } else {
        assert(q % p != 0);
        assert(strip_count(q, p) == 0 && strip(q, p) == q);
        assert(strip_count(n, p) == 1 + strip_count(q, p));
        assert(strip(n, p) == strip(q, p));
        assert(strip_count(n, p) == 1 && strip(n, p) == q);
        lemma_prime_pass(q, (p + 2) as nat, b);
        let rec = trial_pass(q, (p + 2) as nat, b);
        assert(trial_pass(n, p, b) == (seq![(p, 1nat)].add(rec.0), rec.1));
        assert(seq![(p, 1nat)].add(seq![(q, 1nat)]) =~= seq![(p, 1nat), (q, 1nat)]);
    }
}

/// Known-factor recovery: the decomposition of `p * q`, for distinct primes
/// `p` and `q` both below the search bound, contains exactly the entries
/// `p -> 1` and `q -> 1` — no other key, and no spurious factor 1.
pub proof fn lemma_known_factor_recovery(p: nat, q: nat, b: nat)
    requires
        is_prime(p),
        is_prime(q),
        p != q,
        p < b,
        q < b,
    ensures
        factor_seq(p * q, b).contains((p, 1nat)),
        factor_seq(p * q, b).contains((q, 1nat)),
        factor_seq(p * q, b).len() == 2,
{
    let lo = if p <= q {
        p
    } else {
        q
    };
    let hi = if p <= q {
        q
    } else {
        p
    };
    let n = lo * hi;
    assert(n == p * q) by {
        lemma_mul_is_commutative(p as int, q as int);
    }
    lemma_mul_strictly_positive(lo as int, hi as int);
    assert(hi % 2 == 1) by {
        if hi > 2 {
            assert(hi % 2 != 0);
        } else {
            assert(lo < 2);
        }
    }
    if lo == 2 {
        assert(n % 2 == 0 && n / 2 == hi) by {
            lemma_mod_multiples_basic(hi as int, 2int);
            lemma_mul_is_commutative(2int, hi as int);
            lemma_div_multiples_vanish(hi as int, 2int);
        }
        assert(strip_count(hi, 2) == 0 && strip(hi, 2) == hi);
        assert(strip_count(n, 2) == 1 + strip_count(hi, 2));
        assert(strip(n, 2) == strip(hi, 2));
        assert(strip_count(n, 2) == 1 && strip(n, 2) == hi);
        lemma_prime_pass(hi, 3, b);
        let fs = factor_seq(n, b);
        assert(fs =~= seq![(2nat, 1nat), (hi, 1nat)]);
        assert(fs[0] == (lo, 1nat) && fs[1] == (hi, 1nat));
    } else {
        assert(lo % 2 == 1) by {
            assert(lo % 2 != 0);
        }
        assert(n % 2 == 1) by {
            lemma_mul_mod_noop_general(lo as int, hi as int, 2int);
        }
        assert(strip_count(n, 2) == 0 && strip(n, 2) == n);
        lemma_odd_semiprime_pass(lo, hi, b);
        let fs = factor_seq(n, b);
        assert(fs =~= seq![(lo, 1nat), (hi, 1nat)]);
        assert(fs[0] == (lo, 1nat) && fs[1] == (hi, 1nat));
    }
    assert(factor_seq(p * q, b).contains((p, 1nat)));
    assert(factor_seq(p * q, b).contains((q, 1nat)));
}

/// Repeated-factor recovery: the decomposition of `p * p`, for a prime `p`
/// below the search bound, is exactly the one entry `p -> 2`.
pub proof fn lemma_repeated_factor_recovery(p: nat, b: nat)
    requires
        is_prime(p),
        p < b,
    ensures
        factor_seq(p * p, b).contains((p, 2nat)),
        factor_seq(p * p, b).len() == 1,
{
    let n = p * p;
    lemma_mul_strictly_positive(p as int, p as int);
    if p == 2 {
        assert(n == 4);
        assert(4nat % 2 == 0 && 4nat / 2 == 2);
        assert(2nat % 2 == 0 && 2nat / 2 == 1);
        assert(1nat % 2 == 1);
        assert(strip_count(1nat, 2) == 0 && strip(1nat, 2) == 1);
        assert(strip_count(2nat, 2) == 1 + strip_count(1nat, 2));
        assert(strip(2nat, 2) == strip(1nat, 2));
        assert(strip_count(4nat, 2) == 1 + strip_count(2nat, 2));
        assert(strip(4nat, 2) == strip(2nat, 2));
        assert(strip_count(4nat, 2) == 2 && strip(4nat, 2) == 1);
        lemma_trial_pass_one(3, b);
        let fs = factor_seq(n, b);
        assert(fs =~= seq![(2nat, 2nat)]);
        assert(fs[0] == (p, 2nat));
    } else {
        assert(p % 2 == 1) by {
            assert(p % 2 != 0);
        }
        assert(n % 2 == 1) by {
            lemma_mul_mod_noop_general(p as int, p as int, 2int);
        }
        assert(strip_count(n, 2) == 0 && strip(n, 2) == n);
        lemma_odd_semiprime_pass(p, p, b);
        let fs = factor_seq(n, b);
        assert(fs =~= seq![(p, 2nat)]);
        assert(fs[0] == (p, 2nat));
    }
    assert(factor_seq(n, b).contains((p, 2nat)));
}

/// Cross-algorithm agreement: the two engines derive their bounds from
/// different stages of the reduction, but for every odd input there is no
/// factor 2 to strip, the bounds coincide, and the sequential and parallel
/// decompositions are identical. (An even input can make them differ.)
pub proof fn lemma_cross_algorithm_agreement(n: nat)
    requires
        1 <= n,
        n % 2 == 1,
    ensures
        serial_search_bound(n) == parallel_search_bound(n),
        factor_seq(n, serial_search_bound(n)) == factor_seq(n, parallel_search_bound(n)),
{
    assert(strip(n, 2) == n);
}

/// Determinism of the parallel factorizer: its contract pins the mapping to
/// a function of the input alone, so any two results for the same input are
/// identical.
pub proof fn lemma_parallel_deterministic(a: Factorization, c: Factorization, n: u128)
    requires
        a.number == n,
        a@ == factor_seq(n as nat, parallel_search_bound(n as nat)),
        c.number == n,
        c@ == factor_seq(n as nat, parallel_search_bound(n as nat)),
    ensures
        a@ == c@,
        a.number == c.number,
{
}

} // verus!
