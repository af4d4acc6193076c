use parallel_trial_division::{
    parallel_factorization, serial_factorization, Factorization, PartialFactorization,
};
use std::collections::HashSet;

fn entry_set(f: &Factorization) -> HashSet<(u128, u16)> {
    f.factors.iter().copied().collect()
}

#[test]
fn round_trip_both_algorithms_small_inputs() {
    for n in 1u128..=200 {
        let s = serial_factorization(n);
        let p = parallel_factorization(n);
        assert!(s.is_correct(), "serial round trip failed for {}", n);
        assert!(p.is_correct(), "parallel round trip failed for {}", n);
    }
}

#[test]
fn original_value_is_preserved() {
    for n in [1u128, 2, 3, 64, 97, 1000, 8191 * 131071] {
        assert_eq!(serial_factorization(n).number, n);
        assert_eq!(parallel_factorization(n).number, n);
    }
}

#[test]
fn known_factors_of_a_small_semiprime() {
    // 15 = 3 * 5: both primes are recovered, nothing else, no factor 1.
    for result in [serial_factorization(15), parallel_factorization(15)] {
        assert_eq!(result.exponent_of(3), 1);
        assert_eq!(result.exponent_of(5), 1);
        assert_eq!(result.exponent_of(1), 0);
        assert_eq!(result.factors.len(), 2);
        assert!(result.is_correct());
    }
}

#[test]
fn repeated_factor_of_a_square() {
    // 9 = 3 * 3: the mapping is exactly {3 -> 2}.
    for result in [serial_factorization(9), parallel_factorization(9)] {
        assert_eq!(result.exponent_of(3), 2);
        assert_eq!(result.factors.len(), 1);
        assert!(result.is_correct());
    }
}

#[test]
fn square_above_the_bound_stays_composite() {
    // 25 = 5 * 5, but the power-of-two bound for 25 is 4, so the scan never
    // reaches 5 and the whole square is folded in as one opaque factor.
    // The result still multiplies back correctly.
    for result in [serial_factorization(25), parallel_factorization(25)] {
        assert_eq!(result.exponent_of(25), 1);
        assert_eq!(result.exponent_of(5), 0);
        assert!(result.is_correct());
    }
}

#[test]
fn cross_algorithm_agreement_on_odd_inputs() {
    // For odd inputs the two engines derive the same bound, so the sets of
    // (factor, exponent) pairs coincide.
    for n in (1u128..400).step_by(2) {
        let s = serial_factorization(n);
        let p = parallel_factorization(n);
        assert_eq!(entry_set(&s), entry_set(&p), "disagreement for {}", n);
    }
}

#[test]
fn bound_discrepancy_on_even_inputs_keeps_both_correct() {
    // 50 = 2 * 5 * 5: the serial bound (from 50) reaches the candidate 5,
    // the parallel bound (from 25, after the factor 2 is stripped) does not.
    let s = serial_factorization(50);
    let p = parallel_factorization(50);
    assert!(s.is_correct());
    assert!(p.is_correct());
    assert_eq!(s.exponent_of(2), 1);
    assert_eq!(s.exponent_of(5), 2);
    assert_eq!(p.exponent_of(2), 1);
    assert_eq!(p.exponent_of(25), 1);
}

#[test]
fn parallel_factorization_is_deterministic() {
    for n in [1u128, 2, 15, 50, 8191 * 8191, 8191 * 131071] {
        let a = parallel_factorization(n);
        let b = parallel_factorization(n);
        assert_eq!(a.number, b.number);
        assert_eq!(a.factors, b.factors);
    }
}

#[test]
fn trivial_and_power_of_two_inputs() {
    let one = serial_factorization(1);
    assert!(one.factors.is_empty());
    assert!(one.is_correct());
    assert_eq!(one.exponent_of(1), 0);

    let two = parallel_factorization(2);
    assert_eq!(two.exponent_of(2), 1);
    assert_eq!(two.factors.len(), 1);
    assert!(two.is_correct());

    let kilo = serial_factorization(1024);
    assert_eq!(kilo.exponent_of(2), 10);
    assert_eq!(kilo.factors.len(), 1);
    assert!(kilo.is_correct());
}

#[test]
fn prime_input_is_its_own_factor() {
    for result in [serial_factorization(97), parallel_factorization(97)] {
        assert_eq!(result.exponent_of(97), 1);
        assert_eq!(result.factors.len(), 1);
        assert!(result.is_correct());
    }
}

#[test]
fn increment_accumulates_per_factor() {
    let mut partial = PartialFactorization::new(45);
    partial.increment(3);
    partial.increment(3);
    partial.increment(5);
    let result = Factorization::from(partial);
    assert_eq!(result.exponent_of(3), 2);
    assert_eq!(result.exponent_of(5), 1);
    assert_eq!(result.number, 45);
    assert!(result.is_correct());
}

#[test]
fn is_correct_rejects_a_wrong_mapping() {
    let mut partial = PartialFactorization::new(10);
    partial.increment(3);
    let result = Factorization::from(partial);
    assert!(!result.is_correct());
}

#[test]
fn is_correct_handles_zero_entries() {
    let mut with_zero = PartialFactorization::new(0);
    with_zero.increment(0);
    assert!(Factorization::from(with_zero).is_correct());

    let mut wrong = PartialFactorization::new(5);
    wrong.increment(0);
    assert!(!Factorization::from(wrong).is_correct());
}

#[test]
fn empty_mapping_matches_only_one() {
    assert!(Factorization::from(PartialFactorization::new(1)).is_correct());
    assert!(!Factorization::from(PartialFactorization::new(7)).is_correct());
}
