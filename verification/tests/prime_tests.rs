use elliptic_curve::prime::{
    gcd, is_prime, is_prime_pow, legendre, mod_pow, prime_factors, qr_mod_prime,
};
use elliptic_curve::Error;

#[test]
fn test_is_prime() {
    assert!(is_prime(-5).is_err());
    assert!(is_prime(0).is_err());
    assert!(!is_prime(1).unwrap());
    assert!(is_prime(2).unwrap());
    assert!(is_prime(97).unwrap());
}

#[test]
fn test_prime_factors() {
    assert_eq!(vec![(2, 2), (5, 1), (23, 1)], prime_factors(460).unwrap());
    assert!(prime_factors(0).is_err());
    assert!(prime_factors(-3).is_err());
}

#[test]
fn test_is_prime_pow() {
    assert!(is_prime_pow(-1).is_err());
    assert!(is_prime_pow(0).is_err());
    assert!(!is_prime_pow(1).unwrap());
    assert!(is_prime_pow(2).unwrap());
    assert!(is_prime_pow(3).unwrap());
    assert!(is_prime_pow(4).unwrap());
    assert!(is_prime_pow(5).unwrap());
    assert!(!is_prime_pow(6).unwrap());
    assert!(is_prime_pow(7).unwrap());
    assert!(is_prime_pow(8).unwrap());
    assert!(is_prime_pow(9).unwrap());
    assert!(!is_prime_pow(10).unwrap());
}

#[test]
fn test_gcd() {
    assert_eq!(1, gcd(9, 7));
    assert_eq!(1, gcd(-9, 7));
    assert_eq!(1, gcd(9, -7));
    assert_eq!(1, gcd(-9, -7));
    assert_eq!(1, gcd(9, 97));
    assert_eq!(20, gcd(40, 20));
    assert_eq!(20, gcd(20, 40));
    assert_eq!(20, gcd(20, 20));
    assert_eq!(7, gcd(0, 7));
    assert_eq!(0, gcd(0, 0));
    assert_eq!(1, gcd(1, 0));
    assert_eq!(1, gcd(0, 1));
    assert_eq!(1, gcd(1, 1));
    assert_eq!(1, gcd(2, 1));
    assert_eq!(1, gcd(2, 3));
    assert_eq!(2, gcd(2, 4));
}

#[test]
fn test_mod_pow() {
    assert_eq!(1, mod_pow(2, 4, 5).unwrap());
    assert_eq!(4, mod_pow(-2, 5, 6).unwrap());
    assert_eq!(1, mod_pow(1, 1, 2).unwrap());
    assert!(mod_pow(2, 10, 0).is_err());
    assert!(mod_pow(3, -2, 9).is_err());
    assert_eq!(1, mod_pow(0, 0, 10).unwrap());
    assert_eq!(0, mod_pow(0, 9, 10).unwrap());
}

#[test]
fn test_qr_mod_prime() {
    assert!(qr_mod_prime(-1).is_err());
    assert!(qr_mod_prime(0).is_err());
    assert!(qr_mod_prime(1).is_err());
    assert_eq!(vec![0, 1], qr_mod_prime(2).unwrap());
    assert_eq!(vec![0, 1], qr_mod_prime(3).unwrap());
    assert!(qr_mod_prime(4).is_err());
    assert_eq!(vec![0, 1, 4], qr_mod_prime(5).unwrap());
    assert!(qr_mod_prime(6).is_err());
    assert_eq!(vec![0, 1, 2, 4], qr_mod_prime(7).unwrap());
    assert_eq!(
        vec![
            0, 1, 2, 3, 4, 5, 6, 8, 9, 10, 12, 15, 16, 18, 19, 20, 24, 25, 27, 29, 30, 32, 36,
            37, 38, 40, 43, 45, 48, 49, 50, 54, 57, 58, 60, 64
        ],
        qr_mod_prime(71).unwrap()
    );
}

#[test]
fn test_legendre() {
    assert!(legendre(4, 6).is_err());
    assert_eq!(1, legendre(4, 5).unwrap());
    assert_eq!(-1, legendre(2, 5).unwrap());
    assert_eq!(1, legendre(60, 71).unwrap());
    assert_eq!(-1, legendre(63, 71).unwrap());
}

#[test]
fn test_error_kinds() {
    assert_eq!(Err(Error::NotPositive), is_prime(0));
    assert_eq!(Err(Error::NotPositive), is_prime(-5));
    assert_eq!(Err(Error::NotPositive), prime_factors(-1));
    assert_eq!(Err(Error::NotPositive), mod_pow(2, 10, 0));
    assert_eq!(Err(Error::NotPositive), mod_pow(2, 10, -3));
    assert_eq!(Err(Error::NotNonNegative), mod_pow(3, -2, 9));
    assert_eq!(Err(Error::NotAPrime), qr_mod_prime(4));
    assert_eq!(Err(Error::NotPositive), qr_mod_prime(-7));
    assert_eq!(Err(Error::NotAPrime), legendre(4, 6));
}

#[test]
fn test_legendre_residue_classes() {
    // the symbol depends only on the residue class of the argument
    assert_eq!(1, legendre(72, 71).unwrap());
    assert_eq!(legendre(60, 71).unwrap(), legendre(60 + 71, 71).unwrap());
    assert_eq!(legendre(63, 71).unwrap(), legendre(63 - 71, 71).unwrap());
    assert_eq!(1, legendre(-1, 5).unwrap());
    assert_eq!(0, legendre(142, 71).unwrap());
}

#[test]
fn test_gcd_with_zero_is_absolute_value() {
    assert_eq!(17, gcd(17, 0));
    assert_eq!(17, gcd(-17, 0));
    assert_eq!(17, gcd(0, 17));
    assert_eq!(17, gcd(0, -17));
    assert_eq!(0, gcd(0, 0));
}

#[test]
fn test_mod_pow_zero_exponent() {
    assert_eq!(1, mod_pow(7, 0, 2).unwrap());
    assert_eq!(1, mod_pow(-4, 0, 9).unwrap());
    assert_eq!(1, mod_pow(123, 0, 1000).unwrap());
    // modulus 1 collapses everything to 0
    assert_eq!(0, mod_pow(7, 0, 1).unwrap());
    assert_eq!(0, mod_pow(7, 3, 1).unwrap());
}

#[test]
fn test_mod_pow_exact_values() {
    assert_eq!(4, mod_pow(2, 2, 97).unwrap());
    assert_eq!(24, mod_pow(5, 4, 601).unwrap());
    assert_eq!(1, mod_pow(3, 4, 80).unwrap());
    assert_eq!(6, mod_pow(-1, 3, 7).unwrap());
}

#[test]
fn test_prime_factors_edges() {
    assert_eq!(Vec::<(i32, i32)>::new(), prime_factors(1).unwrap());
    assert_eq!(vec![(97, 1)], prime_factors(97).unwrap());
    assert_eq!(vec![(2, 10)], prime_factors(1024).unwrap());
    assert_eq!(vec![(3, 2), (11, 1), (101, 1)], prime_factors(9999).unwrap());
}
