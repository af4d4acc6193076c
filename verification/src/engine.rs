//! The two factorization engines: a strictly sequential scan and a variant
//! whose candidate search runs data-parallel. Both strip the factor 2 first,
//! then divide out every odd candidate below a power-of-two search bound,
//! and fold the leftover remainder in as a final factor.

use crate::factorization::{Factorization, PartialFactorization};
use crate::model::{
    factor_seq, gap, lemma_divides_transitive, lemma_exact_div, lemma_factor_seq_product,
    lemma_log2_floor_lt, lemma_pow2_127, lemma_strip_count_small,
    lemma_trial_pass_none, lemma_trial_pass_one, lemma_trial_pass_skip, log2_floor,
    parallel_search_bound, search_bound, serial_search_bound, strip, strip_count, trial_pass,
};
use crate::model::{has_key, prod};
use rayon::iter::{IntoParallelIterator, ParallelIterator};
use vstd::arithmetic::div_mod::{lemma_div_decreases, lemma_mod_multiples_basic, lemma_mod_self_0};
use vstd::arithmetic::power2::{
    lemma2_to64, lemma2_to64_rest, lemma_pow2_strictly_increases, lemma_pow2_unfold, pow2,
};
use vstd::prelude::*;

verus! {

/// Inputs must stay below `2 ^ 127` so that the bound computation's shift
/// fits the machine word.
pub const INPUT_LIMIT: u128 = 0x8000_0000_0000_0000_0000_0000_0000_0000;

/// Whether `c` is odd and divides `n`.
pub open spec fn dividing_candidate(n: nat, c: nat) -> bool {
    c % 2 == 1 && n % c == 0
}

/// Odd-and-divides test for one candidate; the parallel filter calls it.
fn is_odd_dividing_candidate(n: u128, c: u64) -> (r: bool)
    requires
        1 <= c,
    ensures
        r == dividing_candidate(n as nat, c as nat),
{
    c % 2 == 1 && n % (c as u128) == 0
}

/// Relies on rayon's `into_par_iter` over a range, `filter` and `collect`
/// into a `Vec`: every value of `3..bound` is handed to the predicate
/// exactly once, only those for which it returns true survive, and the
/// collected vector keeps the range's own ascending order (rayon assembles
/// the splits of the range left to right).
#[verifier::external_body]
fn collect_dividing_candidates(n: u128, bound: u64) -> (r: Vec<u64>)
    ensures
        forall|j1: int, j2: int| 0 <= j1 < j2 < r@.len() ==> r@[j1] < r@[j2],
        forall|j: int|
            0 <= j < r@.len() ==> 3 <= #[trigger] r@[j] < bound && dividing_candidate(
                n as nat,
                r@[j] as nat,
            ),
        forall|c: u64| 3 <= c < bound && dividing_candidate(n as nat, c as nat) ==> r@.contains(c),
{
    (3..bound).into_par_iter().filter(|&i| is_odd_dividing_candidate(n, i)).collect()
}

/// Floor of the base-2 logarithm.
#[verifier::loop_isolation(false)]
fn floor_log2(n: u128) -> (r: u32)
    requires
        1 <= n,
    ensures
        r as nat == log2_floor(n as nat),
        r < 128,
{
    proof {
        lemma_pow2_127();
        lemma_pow2_unfold(128);
        assert((n as nat) < pow2(128));
        lemma_log2_floor_lt(n as nat, 128);
    }
    let mut m = n;
    let mut r: u32 = 0;
    while m >= 2
        invariant
            1 <= m <= n,
            log2_floor(n as nat) == r + log2_floor(m as nat),
        decreases m,
    {
        m = m / 2;
        r = r + 1;
    }
    r
}

/// `2 ^ e` as a machine word.
#[verifier::loop_isolation(false)]
fn pow2_u64(e: u32) -> (r: u64)
    requires
        e <= 63,
    ensures
        r as nat == pow2(e as nat),
        1 <= r <= 0x8000_0000_0000_0000u64,
{
    proof {
        lemma2_to64();
        lemma2_to64_rest();
    }
    let mut r: u64 = 1;
    let mut j: u32 = 0;
    while j < e
        invariant
            j <= e,
            r as nat == pow2(j as nat),
        decreases e - j,
    {
        proof {
            lemma_pow2_unfold((j + 1) as nat);
            if j + 1 < 63 {
                lemma_pow2_strictly_increases((j + 1) as nat, 63);
            }
        }
        r = r * 2;
        j = j + 1;
    }
    proof {
        if (e as nat) < 63 {
            lemma_pow2_strictly_increases(e as nat, 63);
        }
    }
    r
}

/// The power-of-two search bound `2 ^ ((1 + log2_floor(n)) / 2)`.
fn compute_search_bound(n: u128) -> (b: u64)
    requires
        1 <= n < INPUT_LIMIT,
    ensures
        b as nat == search_bound(n as nat),
        1 <= b <= 0x8000_0000_0000_0000u64,
{
    proof {
        lemma_pow2_127();
        lemma_log2_floor_lt(n as nat, 127);
    }
    let lg = floor_log2(n);
    let sh = (1 + lg) / 2;
    pow2_u64(sh)
}

/// How one `increment` call transforms a mapping of the shape
/// `hd + [(f, c)]` (or `hd` alone when `c == 0`) whose other keys all
/// differ from `f`: the entry for `f` now carries `c + 1`.
proof fn lemma_increment_effect(pre: Seq<(nat, nat)>, post: Seq<(nat, nat)>, hd: Seq<(nat, nat)>, f: nat, c: nat)
    requires
        pre == hd + (if c == 0 {
            Seq::<(nat, nat)>::empty()
        } else {
            seq![(f, c)]
        }),
        forall|j: int| 0 <= j < hd.len() ==> (#[trigger] hd[j]).0 != f,
        !has_key(pre, f) ==> post == pre.push((f, 1nat)),
        has_key(pre, f) ==> exists|j: int|
            0 <= j < pre.len() && (#[trigger] pre[j]).0 == f && (forall|j2: int|
                0 <= j2 < j ==> (#[trigger] pre[j2]).0 != f) && post == pre.update(
                j,
                (f, (pre[j].1 + 1) as nat),
            ),
    ensures
        post == hd + seq![(f, (c + 1) as nat)],
{
    if c == 0 {
        assert(pre =~= hd);
        assert(!has_key(pre, f));
        assert(post =~= hd + seq![(f, 1nat)]);
    } else {
        assert(pre.len() == hd.len() + 1);
        assert(pre[hd.len() as int] == (f, c));
        assert(has_key(pre, f));
        let j = choose|j: int|
            0 <= j < pre.len() && (#[trigger] pre[j]).0 == f && (forall|j2: int|
                0 <= j2 < j ==> (#[trigger] pre[j2]).0 != f) && post == pre.update(
                j,
                (f, (pre[j].1 + 1) as nat),
            );
        assert(j == hd.len()) by {
            if j < hd.len() {
                assert(pre[j] == hd[j]);
            }
        }
        assert(post =~= hd + seq![(f, (c + 1) as nat)]);
    }
}

/// Sequential factorizer: walk the odd candidates from 3 up to the bound
/// derived from the input itself (before the factor 2 is stripped), divide
/// each out as often as it divides, stop early once the remainder is 1, and
/// fold the final remainder in. The result is exactly the model's bounded
/// trial division, so its entry product restores the input.
#[verifier::loop_isolation(false)]
pub fn serial_factorization(number: u128) -> (result: Factorization)
    requires
        1 <= number < INPUT_LIMIT,
    ensures
        result.number == number,
        result@ == factor_seq(number as nat, serial_search_bound(number as nat)),
        prod(result@) == number,
{
    proof {
        lemma_pow2_127();
        lemma_strip_count_small(number as nat, 2);
    }
    let mut n = number;
    let bound = compute_search_bound(number);
    let ghost bnd: nat = bound as nat;
    let mut factors = PartialFactorization::new(number);
    let ghost mut k: nat = 0;

    while n % 2 == 0
        invariant
            1 <= n <= number,
            factors.number == number,
            k + strip_count(n as nat, 2) == strip_count(number as nat, 2),
            strip(n as nat, 2) == strip(number as nat, 2),
            factors@ == (if k == 0 {
                Seq::<(nat, nat)>::empty()
            } else {
                seq![(2nat, k)]
            }),
            k <= strip_count(number as nat, 2),
            (number as nat) % (n as nat) == 0,
        decreases n,
    {
        let ghost pre = factors@;
        let ghost n_old: nat = n as nat;
        factors.increment(2);
        proof {
            lemma_increment_effect(pre, factors@, Seq::<(nat, nat)>::empty(), 2nat, k);
            k = k + 1;
        }
        n = n / 2;
        proof {
            lemma_exact_div(n_old, 2);
            assert(n_old % (n as nat) == 0) by {
                lemma_mod_multiples_basic(2int, n as int);
            }
            lemma_divides_transitive(n as nat, n_old, number as nat);
        }
    }
    proof {
        assert(strip_count(n as nat, 2) == 0);
        assert(k == strip_count(number as nat, 2));
        assert(n as nat == strip(number as nat, 2));
    }

    let ghost m0: nat = n as nat;
    let ghost head: Seq<(nat, nat)> = factors@;
    let ghost mut done: Seq<(nat, nat)> = Seq::<(nat, nat)>::empty();
    proof {
        assert(head + done =~= head);
        assert(forall|j: int|
            0 <= j < factors@.len() ==> 2 <= (#[trigger] factors@[j]).0 < 3);
        assert(forall|j: int|
            0 <= j < factors@.len() ==> (n as nat) % (#[trigger] factors@[j]).0 != 0);
    }
    let mut i: u64 = 3;
    while i < bound && n != 1
        invariant
            3 <= i,
            i % 2 == 1,
            1 <= n <= number,
            factors.number == number,
            (number as nat) % (n as nat) == 0,
            factors@ == head + done,
            done + trial_pass(n as nat, i as nat, bnd).0 == trial_pass(m0, 3, bnd).0,
            trial_pass(n as nat, i as nat, bnd).1 == trial_pass(m0, 3, bnd).1,
            forall|j: int| 0 <= j < factors@.len() ==> 2 <= (#[trigger] factors@[j]).0 < i,
            forall|j: int|
                0 <= j < factors@.len() ==> (n as nat) % (#[trigger] factors@[j]).0 != 0,
        decreases gap(i as nat, bnd),
    {
        let ghost hd = factors@;
        let ghost n_entry: nat = n as nat;
        let ghost mut c: nat = 0;
        proof {
            lemma_strip_count_small(n_entry, i as nat);
            assert(hd + (if c == 0 {
                Seq::<(nat, nat)>::empty()
            } else {
                seq![(i as nat, c)]
            }) =~= hd);
        }
        while n % (i as u128) == 0
            invariant
                1 <= n <= number,
                factors.number == number,
                c + strip_count(n as nat, i as nat) == strip_count(n_entry, i as nat),
                strip(n as nat, i as nat) == strip(n_entry, i as nat),
                factors@ == hd + (if c == 0 {
                    Seq::<(nat, nat)>::empty()
                } else {
                    seq![(i as nat, c)]
                }),
                (number as nat) % (n as nat) == 0,
                forall|j: int| 0 <= j < hd.len() ==> (n as nat) % (#[trigger] hd[j]).0 != 0,
                c <= strip_count(n_entry, i as nat),
            decreases n,
        {
            let ghost pre = factors@;
            let ghost n_old: nat = n as nat;
            factors.increment(i as u128);
            proof {
                lemma_increment_effect(pre, factors@, hd, i as nat, c);
                c = c + 1;
            }
            n = n / (i as u128);
            proof {
                lemma_exact_div(n_old, i as nat);
                lemma_div_decreases(n_old as int, i as int);
                assert(n_old % (n as nat) == 0) by {
                    lemma_mod_multiples_basic(i as int, n as int);
                }
                lemma_divides_transitive(n as nat, n_old, number as nat);
                assert(strip_count(n_old, i as nat) == 1 + strip_count(n as nat, i as nat));
                assert(strip(n_old, i as nat) == strip(n as nat, i as nat));
                assert forall|j: int|
                    0 <= j < hd.len() implies (n as nat) % (#[trigger] hd[j]).0 != 0 by {
                    if (n as nat) % hd[j].0 == 0 {
                        lemma_divides_transitive(hd[j].0, n as nat, n_old);
                    }
                }
            }
        }
        proof {
            assert(strip_count(n as nat, i as nat) == 0);
            assert(c == strip_count(n_entry, i as nat));
            assert(n as nat == strip(n_entry, i as nat));
            if c == 0 {
                assert(n_entry % (i as nat) != 0);
                assert(trial_pass(n_entry, i as nat, bnd) == trial_pass(
                    n_entry,
                    (i + 2) as nat,
                    bnd,
                ));
                assert(factors@ =~= head + done);
            } else {
                assert(n_entry % (i as nat) == 0);
                let rec = trial_pass(n as nat, (i + 2) as nat, bnd);
                assert(trial_pass(n_entry, i as nat, bnd) == (
                    seq![(i as nat, c)].add(rec.0),
                    rec.1,
                ));
                let done2 = done + seq![(i as nat, c)];
                assert(done2 + rec.0 =~= done + (seq![(i as nat, c)] + rec.0));
                assert(factors@ =~= head + done2);
                done = done2;
            }
        }
        i = i + 2;
    }
    proof {
        if n == 1 {
            lemma_trial_pass_one(i as nat, bnd);
        }
        assert(trial_pass(n as nat, i as nat, bnd) == (Seq::<(nat, nat)>::empty(), n as nat));
        assert(done =~= done + Seq::<(nat, nat)>::empty());
        assert(done == trial_pass(m0, 3, bnd).0);
        assert(trial_pass(m0, 3, bnd).1 == n as nat);
    }

    if n != 1 {
        let ghost pre = factors@;
        proof {
            lemma_mod_self_0(n as int);
            assert(forall|j: int| 0 <= j < pre.len() ==> (#[trigger] pre[j]).0 != n as nat);
        }
        factors.increment(n);
        proof {
            lemma_increment_effect(pre, factors@, pre, n as nat, 0);
            assert(factors@ =~= (head + done) + seq![(n as nat, 1nat)]);
        }
    }

    let ghost fin = factors@;
    let ghost fnum = factors.number;
    let result = Factorization::from(factors);
    proof {
        assert(result.number == fnum && result@ == fin);
        let pass = trial_pass(m0, 3, bnd);
        let tail: Seq<(nat, nat)> = if pass.1 > 1 {
            seq![(pass.1, 1nat)]
        } else {
            Seq::<(nat, nat)>::empty()
        };
        assert(fin =~= head + pass.0 + tail);
        assert(fin =~= factor_seq(number as nat, bnd));
        lemma_factor_seq_product(number as nat, bnd);
    }
    result
}

/// Parallel factorizer: strip the factor 2, derive the bound from the
/// reduced remainder, test every odd candidate below it concurrently and
/// side-effect-free against that remainder, collect the dividing ones in
/// ascending order, then divide each out sequentially (the reduction has a
/// true data dependency) and fold the final remainder in. The mapping is
/// the model's bounded trial division of the input, a function of the input
/// alone, so repeated runs agree bit for bit.
#[verifier::loop_isolation(false)]
pub fn parallel_factorization(number: u128) -> (result: Factorization)
    requires
        1 <= number < INPUT_LIMIT,
    ensures
        result.number == number,
        result@ == factor_seq(number as nat, parallel_search_bound(number as nat)),
        prod(result@) == number,
{
    proof {
        lemma_pow2_127();
        lemma_strip_count_small(number as nat, 2);
    }
    let mut n = number;
    let mut factors = PartialFactorization::new(number);
    let ghost mut k: nat = 0;

    while n % 2 == 0
        invariant
            1 <= n <= number,
            factors.number == number,
            k + strip_count(n as nat, 2) == strip_count(number as nat, 2),
            strip(n as nat, 2) == strip(number as nat, 2),
            factors@ == (if k == 0 {
                Seq::<(nat, nat)>::empty()
            } else {
                seq![(2nat, k)]
            }),
            k <= strip_count(number as nat, 2),
            (number as nat) % (n as nat) == 0,
        decreases n,
    {
        let ghost pre = factors@;
        let ghost n_old: nat = n as nat;
        factors.increment(2);
        proof {
            lemma_increment_effect(pre, factors@, Seq::<(nat, nat)>::empty(), 2nat, k);
            k = k + 1;
        }
        n = n / 2;
        proof {
            lemma_exact_div(n_old, 2);
            assert(n_old % (n as nat) == 0) by {
                lemma_mod_multiples_basic(2int, n as int);
            }
            lemma_divides_transitive(n as nat, n_old, number as nat);
        }
    }
    proof {
        assert(strip_count(n as nat, 2) == 0);
        assert(k == strip_count(number as nat, 2));
        assert(n as nat == strip(number as nat, 2));
    }

    let bound = compute_search_bound(n);
    let ghost bnd: nat = bound as nat;
    proof {
        assert(bnd == parallel_search_bound(number as nat));
    }

    let ghost m0: nat = n as nat;
    let ghost head: Seq<(nat, nat)> = factors@;
    let ghost mut done: Seq<(nat, nat)> = Seq::<(nat, nat)>::empty();
    let ghost mut ipos: nat = 3;
    proof {
        assert(head + done =~= head);
        assert(forall|j: int|
            0 <= j < factors@.len() ==> 2 <= (#[trigger] factors@[j]).0 < ipos);
        assert(forall|j: int|
            0 <= j < factors@.len() ==> (n as nat) % (#[trigger] factors@[j]).0 != 0);
        lemma_mod_self_0(n as int);
    }

    let candidates = collect_dividing_candidates(n, bound);
    let len = candidates.len();
    let mut kk: usize = 0;
    while kk < len
        invariant
            0 <= kk <= len,
            len == candidates@.len(),
            3 <= ipos,
            ipos % 2 == 1,
            1 <= n <= number,
            factors.number == number,
            (number as nat) % (n as nat) == 0,
            m0 % (n as nat) == 0,
            factors@ == head + done,
            done + trial_pass(n as nat, ipos, bnd).0 == trial_pass(m0, 3, bnd).0,
            trial_pass(n as nat, ipos, bnd).1 == trial_pass(m0, 3, bnd).1,
            forall|j: int| 0 <= j < factors@.len() ==> 2 <= (#[trigger] factors@[j]).0 < ipos,
            forall|j: int|
                0 <= j < factors@.len() ==> (n as nat) % (#[trigger] factors@[j]).0 != 0,
            forall|j: int| 0 <= j < kk ==> (#[trigger] candidates@[j]) < ipos,
            forall|j: int| kk <= j < len ==> ipos <= (#[trigger] candidates@[j]),
        decreases len - kk,
    {
        let cand = candidates[kk];
        proof {
            assert(3 <= cand < bound && dividing_candidate(m0, cand as nat));
            assert forall|t: nat| ipos <= t < cand as nat && t % 2 == 1 implies #[trigger] ((
            n as nat) % t) != 0 by {
                if (n as nat) % t == 0 {
                    lemma_divides_transitive(t, n as nat, m0);
                    let tu = t as u64;
                    assert(tu as nat == t);
                    assert(3 <= tu < bound && dividing_candidate(m0, tu as nat));
                    assert(candidates@.contains(tu));
                    let j2 = choose|j2: int|
                        0 <= j2 < candidates@.len() && candidates@[j2] == tu;
                    if j2 < kk {
                        assert(candidates@[j2] < ipos);
                    } else if j2 == kk {
                        assert(candidates@[j2] == cand);
                    } else {
                        assert(candidates@[kk as int] < candidates@[j2]);
                    }
                    assert(false);
                }
            }
            lemma_trial_pass_skip(n as nat, ipos, cand as nat, bnd);
            ipos = cand as nat;
        }

        let ghost hd = factors@;
        let ghost n_entry: nat = n as nat;
        let ghost mut c: nat = 0;
        proof {
            lemma_strip_count_small(n_entry, cand as nat);
            assert(hd + (if c == 0 {
                Seq::<(nat, nat)>::empty()
            } else {
                seq![(cand as nat, c)]
            }) =~= hd);
        }
        while n % (cand as u128) == 0
            invariant
                1 <= n <= number,
                factors.number == number,
                c + strip_count(n as nat, cand as nat) == strip_count(n_entry, cand as nat),
                strip(n as nat, cand as nat) == strip(n_entry, cand as nat),
                factors@ == hd + (if c == 0 {
                    Seq::<(nat, nat)>::empty()
                } else {
                    seq![(cand as nat, c)]
                }),
                (number as nat) % (n as nat) == 0,
                m0 % (n as nat) == 0,
                forall|j: int| 0 <= j < hd.len() ==> (n as nat) % (#[trigger] hd[j]).0 != 0,
                c <= strip_count(n_entry, cand as nat),
            decreases n,
        {
            let ghost pre = factors@;
            let ghost n_old: nat = n as nat;
            factors.increment(cand as u128);
            proof {
                lemma_increment_effect(pre, factors@, hd, cand as nat, c);
                c = c + 1;
            }
            n = n / (cand as u128);
            proof {
                lemma_exact_div(n_old, cand as nat);
                lemma_div_decreases(n_old as int, cand as int);
                assert(n_old % (n as nat) == 0) by {
                    lemma_mod_multiples_basic(cand as int, n as int);
                }
                lemma_divides_transitive(n as nat, n_old, number as nat);
                lemma_divides_transitive(n as nat, n_old, m0);
                assert(strip_count(n_old, cand as nat) == 1 + strip_count(n as nat, cand as nat));
                assert(strip(n_old, cand as nat) == strip(n as nat, cand as nat));
                assert forall|j: int|
                    0 <= j < hd.len() implies (n as nat) % (#[trigger] hd[j]).0 != 0 by {
                    if (n as nat) % hd[j].0 == 0 {
                        lemma_divides_transitive(hd[j].0, n as nat, n_old);
                    }
                }
            }
        }
        proof {
            assert(strip_count(n as nat, cand as nat) == 0);
            assert(c == strip_count(n_entry, cand as nat));
            assert(n as nat == strip(n_entry, cand as nat));
            if c == 0 {
                assert(n_entry % (cand as nat) != 0);
                assert(trial_pass(n_entry, cand as nat, bnd) == trial_pass(
                    n_entry,
                    (cand + 2) as nat,
                    bnd,
                ));
                assert(factors@ =~= head + done);
            } else {
                assert(n_entry % (cand as nat) == 0);
                let rec = trial_pass(n as nat, (cand + 2) as nat, bnd);
                assert(trial_pass(n_entry, cand as nat, bnd) == (
                    seq![(cand as nat, c)].add(rec.0),
                    rec.1,
                ));
                let done2 = done + seq![(cand as nat, c)];
                assert(done2 + rec.0 =~= done + (seq![(cand as nat, c)] + rec.0));
                assert(factors@ =~= head + done2);
                done = done2;
            }
            ipos = (cand + 2) as nat;
            assert forall|j: int| kk + 1 <= j < len implies ipos <= (#[trigger] candidates@[
            j]) by {
                assert(candidates@[kk as int] < candidates@[j]);
                assert(dividing_candidate(m0, candidates@[j] as nat));
            }
        }
        kk = kk + 1;
    }
    proof {
        assert forall|t: nat| ipos <= t < bnd && t % 2 == 1 implies #[trigger] ((n as nat) % t)
            != 0 by {
            if (n as nat) % t == 0 {
                lemma_divides_transitive(t, n as nat, m0);
                let tu = t as u64;
                assert(tu as nat == t);
                assert(3 <= tu < bound && dividing_candidate(m0, tu as nat));
                assert(candidates@.contains(tu));
                let j2 = choose|j2: int| 0 <= j2 < candidates@.len() && candidates@[j2] == tu;
                assert(candidates@[j2] < ipos);
                assert(false);
            }
        }
        lemma_trial_pass_none(n as nat, ipos, bnd);
        assert(done =~= done + Seq::<(nat, nat)>::empty());
        assert(done == trial_pass(m0, 3, bnd).0);
        assert(trial_pass(m0, 3, bnd).1 == n as nat);
    }

    if n != 1 {
        let ghost pre = factors@;
        proof {
            lemma_mod_self_0(n as int);
            assert(forall|j: int| 0 <= j < pre.len() ==> (#[trigger] pre[j]).0 != n as nat);
        }
        factors.increment(n);
        proof {
            lemma_increment_effect(pre, factors@, pre, n as nat, 0);
            assert(factors@ =~= (head + done) + seq![(n as nat, 1nat)]);
        }
    }

    let ghost fin = factors@;
    let ghost fnum = factors.number;
    let result = Factorization::from(factors);
    proof {
        assert(result.number == fnum && result@ == fin);
        let pass = trial_pass(m0, 3, bnd);
        let tail: Seq<(nat, nat)> = if pass.1 > 1 {
            seq![(pass.1, 1nat)]
        } else {
            Seq::<(nat, nat)>::empty()
        };
        assert(fin =~= head + pass.0 + tail);
        assert(fin =~= factor_seq(number as nat, bnd));
        lemma_factor_seq_product(number as nat, bnd);
    }
    result
}

} // verus!
