use parallel_trial_division::{parallel_factorization, serial_factorization};

const M13: u128 = (1 << 13) - 1;
const M17: u128 = (1 << 17) - 1;
const M19: u128 = (1 << 19) - 1;
const M31: u128 = (1 << 31) - 1;

const N0: (u128, u128, u128) = (M13, M17, M13 * M17);
const N1: (u128, u128, u128) = (M13, M19, M13 * M19);
const N2: (u128, u128, u128) = (M13, M31, M13 * M31);
const N3: (u128, u128, u128) = (M17, M19, M17 * M19);
const N4: (u128, u128, u128) = (M17, M31, M17 * M31);
const N5: (u128, u128, u128) = (M19, M31, M19 * M31);
const N6: (u128, u128, u128) = (M13, M13, M13 * M13);

fn test_serial(n: (u128, u128, u128)) {
    let result = serial_factorization(n.2);
    assert!(result.is_correct());
    assert_eq!(result.number, n.2);
    assert_eq!(result.exponent_of(n.0), 1);
    assert_eq!(result.exponent_of(n.1), 1);
}

#[test]
fn test_m13_m17_serial() {
    test_serial(N0);
}
#[test]
fn test_m13_m19_serial() {
    test_serial(N1);
}
#[test]
fn test_m13_m31_serial() {
    test_serial(N2);
}
#[test]
fn test_m17_m19_serial() {
    test_serial(N3);
}
#[test]
fn test_m17_m31_serial() {
    test_serial(N4);
}
#[test]
fn test_m19_m31_serial() {
    test_serial(N5);
}

#[test]
fn test_m13_m13_serial() {
    let n = N6;
    let result = serial_factorization(n.2);
    assert!(result.is_correct());
    assert_eq!(result.number, n.2);
    assert_eq!(result.exponent_of(n.0), 2);
}

fn test_parallel(n: (u128, u128, u128)) {
    let result = parallel_factorization(n.2);
    assert!(result.is_correct());
    assert_eq!(result.number, n.2);
    assert_eq!(result.exponent_of(n.0), 1);
}

#[test]
fn test_m13_m17_parallel() {
    test_parallel(N0);
}
#[test]
fn test_m13_m19_parallel() {
    test_parallel(N1);
}
#[test]
fn test_m13_m31_parallel() {
    test_parallel(N2);
}
#[test]
fn test_m17_m19_parallel() {
    test_parallel(N3);
}
#[test]
fn test_m17_m31_parallel() {
    test_parallel(N4);
}
#[test]
fn test_m19_m31_parallel() {
    test_parallel(N5);
}

#[test]
fn test_m13_m13_parallel() {
    let n = N6;
    let result = parallel_factorization(n.2);
    assert!(result.is_correct());
    assert_eq!(result.number, n.2);
    assert_eq!(result.exponent_of(n.0), 2);
}
