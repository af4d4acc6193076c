//! The result data model: a number together with a `factor -> exponent`
//! mapping, held as a sequence of entries with pairwise distinct factors
//! in the completed decompositions the factorizers build.

use crate::model::{has_key, prod};
use vstd::arithmetic::mul::{lemma_mul_inequality, lemma_mul_is_associative};
use vstd::arithmetic::power::{lemma_pow_positive, pow};
use vstd::prelude::*;

verus! {

/// A factorization under construction: the original input plus the
/// exponents accumulated so far for each discovered factor.
#[derive(Debug, Clone)]
pub struct PartialFactorization {
    pub number: u128,
    pub factors: Vec<(u128, u16)>,
}

/// A completed decomposition: the original input plus the final
/// `factor -> exponent` mapping. Read-only by convention.
#[derive(Debug, Clone)]
pub struct Factorization {
    pub number: u128,
    pub factors: Vec<(u128, u16)>,
}

/// The mathematical reading of one stored entry.
pub open spec fn entry_model(e: (u128, u16)) -> (nat, nat) {
    (e.0 as nat, e.1 as nat)
}

/// The mathematical reading of a stored entry sequence.
pub open spec fn entries_model(s: Seq<(u128, u16)>) -> Seq<(nat, nat)> {
    s.map_values(|e: (u128, u16)| entry_model(e))
}

/// Index correspondence between a stored entry sequence and its model.
pub proof fn lemma_entries_model_index(s: Seq<(u128, u16)>, i: int)
    requires
        0 <= i < s.len(),
    ensures
        entries_model(s).len() == s.len(),
        entries_model(s)[i] == entry_model(s[i]),
{
}

impl View for PartialFactorization {
    type V = Seq<(nat, nat)>;

    open spec fn view(&self) -> Seq<(nat, nat)> {
        entries_model(self.factors@)
    }
}

impl View for Factorization {
    type V = Seq<(nat, nat)>;

    open spec fn view(&self) -> Seq<(nat, nat)> {
        entries_model(self.factors@)
    }
}

impl From<PartialFactorization> for Factorization {
    /// Finalize: move the accumulated mapping into the immutable result.
    fn from(value: PartialFactorization) -> (r: Factorization) {
        Factorization { number: value.number, factors: value.factors }
    }
}

impl vstd::std_specs::convert::FromSpecImpl<PartialFactorization> for Factorization {
    open spec fn obeys_from_spec() -> bool {
        true
    }

    open spec fn from_spec(v: PartialFactorization) -> Factorization {
        Factorization { number: v.number, factors: v.factors }
    }
}

impl PartialFactorization {
    /// A fresh accumulator for `number`, with no factor seen yet.
    pub fn new(number: u128) -> (r: PartialFactorization)
        ensures
            r.number == number,
            r@ == Seq::<(nat, nat)>::empty(),
    {
        let factors: Vec<(u128, u16)> = Vec::new();
        proof {
            assert(entries_model(factors@) =~= Seq::<(nat, nat)>::empty());
        }
        PartialFactorization { number, factors }
    }

    /// Raise the exponent stored for `factor` by one; a factor not seen
    /// before enters the mapping with exponent one. The earliest entry
    /// carrying the factor is the one raised.
    #[verifier::loop_isolation(false)]
    pub fn increment(&mut self, factor: u128)
        requires
            forall|j: int|
                0 <= j < old(self)@.len() && (#[trigger] old(self)@[j]).0 == factor as nat
                    ==> old(self)@[j].1 < 0xffff,
        ensures
            final(self).number == old(self).number,
            !has_key(old(self)@, factor as nat) ==> final(self)@ == old(self)@.push(
                (factor as nat, 1nat),
            ),
            has_key(old(self)@, factor as nat) ==> exists|j: int|
                0 <= j < old(self)@.len() && (#[trigger] old(self)@[j]).0 == factor as nat && (
                forall|j2: int| 0 <= j2 < j ==> (#[trigger] old(self)@[j2]).0 != factor as nat)
                    && final(self)@ == old(self)@.update(
                    j,
                    (factor as nat, (old(self)@[j].1 + 1) as nat),
                ),
    {
        let ghost pre = self@;
        let n = self.factors.len();
        let mut idx: usize = 0;
        while idx < n
            invariant
                0 <= idx <= n,
                n == self.factors.len(),
                *self == *old(self),
                forall|j: int| 0 <= j < idx ==> (#[trigger] pre[j]).0 != factor as nat,
                pre == self@,
            decreases n - idx,
        {
            if self.factors[idx].0 == factor {
                let e = self.factors[idx].1;
                proof {
                    lemma_entries_model_index(self.factors@, idx as int);
                    assert(pre[idx as int].0 == factor as nat);
                }
                assert(e < 0xffff);
                self.factors.set(idx, (factor, e + 1));
                proof {
                    assert(self@ =~= pre.update(
                        idx as int,
                        (factor as nat, (pre[idx as int].1 + 1) as nat),
                    ));
                }
                return ;
            }
            idx += 1;
        }
        self.factors.push((factor, 1));
        proof {
            assert(!has_key(pre, factor as nat));
            assert(self@ =~= pre.push((factor as nat, 1nat)));
        }
    }
}

/// If some entry carries the factor 0 with a positive exponent, the whole
/// product collapses to 0.
proof fn lemma_prod_zero_entry(s: Seq<(nat, nat)>, j: int)
    requires
        0 <= j < s.len(),
        s[j].0 == 0,
        s[j].1 >= 1,
    ensures
        prod(s) == 0,
    decreases s.len(),
{
    if j == s.len() - 1 {
        assert(pow(0int, s[j].1) == 0) by {
            vstd::arithmetic::power::lemma0_pow(s[j].1);
        }
    } else {
        lemma_prod_zero_entry(s.drop_last(), j);
    }
}

impl Factorization {
    /// The exponent stored for `factor`, or 0 when the factor is absent;
    /// the earliest entry carrying the factor is the one reported.
    #[verifier::loop_isolation(false)]
    pub fn exponent_of(&self, factor: u128) -> (e: u16)
        ensures
            !has_key(self@, factor as nat) ==> e == 0,
            has_key(self@, factor as nat) ==> exists|j: int|
                0 <= j < self@.len() && (#[trigger] self@[j]).0 == factor as nat && e as nat
                    == self@[j].1 && (forall|j2: int|
                    0 <= j2 < j ==> (#[trigger] self@[j2]).0 != factor as nat),
    {
        let n = self.factors.len();
        let mut idx: usize = 0;
        while idx < n
            invariant
                0 <= idx <= n,
                n == self.factors.len(),
                forall|j: int| 0 <= j < idx ==> (#[trigger] self@[j]).0 != factor as nat,
            decreases n - idx,
        {
            proof {
                lemma_entries_model_index(self.factors@, idx as int);
            }
            if self.factors[idx].0 == factor {
                return self.factors[idx].1;
            }
            idx += 1;
        }
        0
    }

    /// Recompute the product of `factor ^ exponent` over the whole mapping
    /// and compare it with the stored original number. Pure; recomputed on
    /// every call.
    #[verifier::loop_isolation(false)]
    pub fn is_correct(&self) -> (r: bool)
        ensures
            r == (prod(self@) == self.number as int),
    {
        let ghost s = self@;
        let n = self.factors.len();

        // A factor of 0 with a positive exponent annihilates the product.
        let mut idx: usize = 0;
        while idx < n
            invariant
                0 <= idx <= n,
                n == self.factors.len(),
                s == self@,
                forall|j: int| 0 <= j < idx ==> !((#[trigger] s[j]).0 == 0 && s[j].1 >= 1),
            decreases n - idx,
        {
            let (f, e) = self.factors[idx];
            if f == 0 && e >= 1 {
                proof {
                    lemma_prod_zero_entry(s, idx as int);
                }
                return self.number == 0;
            }
            idx += 1;
        }

        // Entries with exponent 0 contribute a factor of 1; drop the
        // zero-factor case by treating such an entry as factor 1.
        // From here every factor that matters is at least 1, so the running
        // product only grows and an overflow is a definitive mismatch.
        proof {
            if exists|j: int| 0 <= j < s.len() && (#[trigger] s[j]).0 == 0 {
                let j = choose|j: int| 0 <= j < s.len() && (#[trigger] s[j]).0 == 0;
                assert(s[j].1 == 0);
                assert(pow(s[j].0 as int, s[j].1) == 1) by {
                    vstd::arithmetic::power::lemma_pow0(s[j].0 as int);
                }
            }
        }
        let mut acc: u128 = 1;
        let mut idx: usize = 0;
        while idx < n
            invariant
                0 <= idx <= n,
                n == self.factors.len(),
                s == self@,
                forall|j: int| 0 <= j < n ==> !((#[trigger] s[j]).0 == 0 && s[j].1 >= 1),
                acc as int == prod(s.take(idx as int)),
            decreases n - idx,
        {
            let (f, e) = self.factors[idx];
            let ghost fk: nat = s[idx as int].0;
            let ghost acc0: int = acc as int;
            proof {
                lemma_entries_model_index(self.factors@, idx as int);
                vstd::arithmetic::power::lemma_pow0(fk as int);
            }
            let mut j: u16 = 0;
            let mut cur: u128 = acc;
            while j < e
                invariant
                    0 <= j <= e,
                    f == self.factors@[idx as int].0,
                    e == self.factors@[idx as int].1,
                    0 <= (idx as int) < n == self.factors.len(),
                    s == self@,
                    fk == s[idx as int].0,
                    forall|jj: int| 0 <= jj < n ==> !((#[trigger] s[jj]).0 == 0 && s[jj].1 >= 1),
                    acc0 == prod(s.take(idx as int)),
                    cur as int == acc0 * pow(fk as int, j as nat),
                decreases e - j,
            {
                proof {
                    if f == 0 {
                        assert(s[idx as int].1 == 0);
                        assert(false);
                    }
                }
                match cur.checked_mul(f) {
                    Some(v) => {
                        proof {
                            assert((acc0 * pow(fk as int, j as nat)) * (fk as int) == acc0 * pow(
                                fk as int,
                                (j + 1) as nat,
                            )) by {
                                lemma_mul_is_associative(acc0, pow(fk as int, j as nat), fk as int);
                                assert(pow(fk as int, (j + 1) as nat) == pow(fk as int, j as nat)
                                    * fk) by {
                                    vstd::arithmetic::power::lemma_pow_adds(
                                        fk as int,
                                        j as nat,
                                        1nat,
                                    );
                                    vstd::arithmetic::power::lemma_pow1(fk as int);
                                }
                            }
                        }
                        cur = v;
                    },
                    None => {
                        // The true product is at least the overflowing prefix
                        // and so cannot equal the stored number.
                        proof {
                            lemma_overflow_means_wrong(s, idx as int, j as nat, acc0, self.number);
                        }
                        return false;
                    },
                }
                j += 1;
            }
            proof {
                assert(s.take(idx + 1) =~= s.take(idx as int).push(s[idx as int]));
                lemma_prod_take_step(s, idx as int);
            }
            acc = cur;
            idx += 1;
        }
        proof {
            assert(s.take(n as int) =~= s);
        }
        acc == self.number
    }
}

/// Unfolding step: the product of a prefix one entry longer multiplies in
/// that entry's prime power.
proof fn lemma_prod_take_step(s: Seq<(nat, nat)>, k: int)
    requires
        0 <= k < s.len(),
    ensures
        prod(s.take(k + 1)) == prod(s.take(k)) * pow(s[k].0 as int, s[k].1),
{
    assert(s.take(k + 1).drop_last() =~= s.take(k));
    assert(s.take(k + 1).last() == s[k]);
}

/// If the running product of the first `k` entries and `j` copies of entry
/// `k`'s factor already exceeds the machine range, the full product differs
/// from any machine-representable number.
proof fn lemma_overflow_means_wrong(s: Seq<(nat, nat)>, k: int, j: nat, acc0: int, number: u128)
    requires
        0 <= k < s.len(),
        forall|jj: int| 0 <= jj < s.len() ==> !((#[trigger] s[jj]).0 == 0 && s[jj].1 >= 1),
        j < s[k].1,
        s[k].0 >= 1,
        acc0 == prod(s.take(k)),
        acc0 * pow(s[k].0 as int, j) * (s[k].0 as int) > u128::MAX,
    ensures
        prod(s) != number as int,
{
    let f = s[k].0 as int;
    lemma_prod_ge_partial(s, k, j);
    let partial = acc0 * pow(f, j) * f;
    assert(prod(s) >= partial);
    assert(prod(s) > u128::MAX);
}

/// With entry `k` still owed at least one more copy of its factor, the full
/// product is at least `prod(take(k)) * f^j * f`; entries with exponent 0
/// contribute `pow(_, 0) == 1`, every other factor is at least 1.
proof fn lemma_prod_ge_partial(s: Seq<(nat, nat)>, k: int, j: nat)
    requires
        0 <= k < s.len(),
        forall|jj: int| 0 <= jj < s.len() ==> !((#[trigger] s[jj]).0 == 0 && s[jj].1 >= 1),
        j < s[k].1,
        s[k].0 >= 1,
    ensures
        prod(s) >= prod(s.take(k)) * pow(s[k].0 as int, j) * (s[k].0 as int),
        prod(s.take(k)) >= 1,
    decreases s.len(),
{
    let f = s[k].0 as int;
    let last = s.last();
    assert(last == s[s.len() - 1]);
    let pw_last = pow(last.0 as int, last.1);
    assert(pw_last >= 1) by {
        if last.0 == 0 {
            assert(last.1 == 0);
            vstd::arithmetic::power::lemma_pow0(last.0 as int);
        } else {
            lemma_pow_positive(last.0 as int, last.1);
        }
    }
    if k == s.len() - 1 {
        // prod(s) == prod(take(k)) * pow(f, e) and pow(f, e) >= pow(f, j) * f.
        assert(s.drop_last() =~= s.take(k));
        let e = s[k].1;
        assert(prod(s) == prod(s.take(k)) * pow(f, e));
        assert(pow(f, e) >= pow(f, j) * f) by {
            assert(pow(f, e) == pow(f, (j + 1) as nat) * pow(f, (e - j - 1) as nat)) by {
                vstd::arithmetic::power::lemma_pow_adds(f, (j + 1) as nat, (e - j - 1) as nat);
            }
            assert(pow(f, (j + 1) as nat) == pow(f, j) * f) by {
                vstd::arithmetic::power::lemma_pow_adds(f, j, 1nat);
                vstd::arithmetic::power::lemma_pow1(f);
            }
            lemma_pow_positive(f, (e - j - 1) as nat);
            lemma_pow_positive(f, (j + 1) as nat);
            lemma_mul_inequality(1, pow(f, (e - j - 1) as nat), pow(f, (j + 1) as nat));
            vstd::arithmetic::mul::lemma_mul_is_commutative(
                pow(f, (j + 1) as nat),
                pow(f, (e - j - 1) as nat),
            );
        }
        lemma_prefix_prod_pos(s.take(k));
        lemma_mul_inequality(pow(f, j) * f, pow(f, e), prod(s.take(k)));
        vstd::arithmetic::mul::lemma_mul_is_commutative(prod(s.take(k)), pow(f, e));
        vstd::arithmetic::mul::lemma_mul_is_commutative(prod(s.take(k)), pow(f, j) * f);
        lemma_mul_is_associative(prod(s.take(k)), pow(f, j), f);
    } else {
        let d = s.drop_last();
        assert(forall|jj: int| 0 <= jj < d.len() ==> d[jj] == s[jj]);
        lemma_prod_ge_partial(d, k, j);
        assert(d.take(k) =~= s.take(k));
        assert(prod(s) == prod(d) * pw_last);
        let target = prod(s.take(k)) * pow(f, j) * f;
        assert(target >= 1) by {
            lemma_prefix_prod_pos(s.take(k));
            lemma_pow_positive(f, j);
            vstd::arithmetic::mul::lemma_mul_strictly_positive(prod(s.take(k)), pow(f, j));
            vstd::arithmetic::mul::lemma_mul_strictly_positive(prod(s.take(k)) * pow(f, j), f);
        }
        assert(prod(d) >= target);
        lemma_mul_inequality(1, pw_last, prod(d));
        vstd::arithmetic::mul::lemma_mul_is_commutative(prod(d), pw_last);
        assert(prod(s) >= prod(d));
    }
}

/// The product of entries whose factors are all nonzero (or owed no copy)
/// is positive.
proof fn lemma_prefix_prod_pos(s: Seq<(nat, nat)>)
    requires
        forall|jj: int| 0 <= jj < s.len() ==> !((#[trigger] s[jj]).0 == 0 && s[jj].1 >= 1),
    ensures
        prod(s) >= 1,
    decreases s.len(),
{
    if s.len() > 0 {
        let last = s.last();
        assert(last == s[s.len() - 1]);
        let pw = pow(last.0 as int, last.1);
        assert(pw >= 1) by {
            if last.0 == 0 {
                assert(last.1 == 0);
                vstd::arithmetic::power::lemma_pow0(last.0 as int);
            } else {
                lemma_pow_positive(last.0 as int, last.1);
            }
        }
        let d = s.drop_last();
        assert(forall|jj: int| 0 <= jj < d.len() ==> d[jj] == s[jj]);
        lemma_prefix_prod_pos(d);
        lemma_mul_inequality(1, pw, prod(d));
        vstd::arithmetic::mul::lemma_mul_is_commutative(prod(d), pw);
    }
}

} // verus!
