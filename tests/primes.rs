use fmgp::primes::is_prime;
use fmgp::stein::stein_gcd;

#[test]
fn primality_by_trial_division() {
    assert_eq!(is_prime(&101), 1);
    assert_eq!(is_prime(&105), 0);
    assert_eq!(is_prime(&10_007), 1);
    assert_eq!(is_prime(&0), 0);
    assert_eq!(is_prime(&1), 0);
    assert_eq!(is_prime(&2), 1);
    assert_eq!(is_prime(&4), 0);
    assert_eq!(is_prime(&9), 0);
    assert_eq!(is_prime(&49), 0);
}

#[test]
fn primality_agrees_with_definition() {
    for n in 0..400u64 {
        let want = n >= 2 && (2..n).all(|d| n % d != 0);
        assert_eq!(is_prime(&n), if want { 1 } else { 0 }, "n = {}", n);
    }
}

#[test]
fn binary_gcd_values() {
    assert_eq!(stein_gcd(196, 42), 14);
    assert_eq!(stein_gcd(-196, 42), 14);
    assert_eq!(stein_gcd(196, -42), 14);
    assert_eq!(stein_gcd(0, -9), 9);
    assert_eq!(stein_gcd(12, 0), 12);
    assert_eq!(stein_gcd(0, 0), 0);
    assert_eq!(stein_gcd(1 << 40, 3 << 20), 1 << 20);
    assert_eq!(stein_gcd(i64::MAX, i64::MAX), i64::MAX);
    assert_eq!(stein_gcd(-i64::MAX, 7), 7);
}

#[test]
fn binary_gcd_agrees_with_euclid() {
    fn euclid(mut a: i64, mut b: i64) -> i64 {
        a = a.abs();
        b = b.abs();
        while b != 0 {
            let t = a % b;
            a = b;
            b = t;
        }
        a
    }
    for m in -60..60i64 {
        for n in -60..60i64 {
            assert_eq!(stein_gcd(m, n), euclid(m, n), "{} {}", m, n);
        }
    }
}

use fmgp::inverse::{extended_gcd, multiplicative_inverse};

#[test]
fn extended_euclid_coefficients() {
    let (x, g) = extended_gcd(121, 66);
    assert_eq!(g, 11);
    assert_eq!((x * 121 - g) % 66, 0);
    assert_eq!(extended_gcd(0, 5).1, 5);
    assert_eq!(extended_gcd(7, 0), (1, 7));
    for a in 0..60i64 {
        for b in 1..60i64 {
            let (x, g) = extended_gcd(a, b);
            assert_eq!(g, stein_gcd(a, b));
            assert_eq!((x * a - g) % b, 0);
            assert!(x.abs() <= b);
        }
    }
}

#[test]
fn inverses_modulo_n() {
    assert_eq!((24 * multiplicative_inverse(24, 10_007)) % 10_007, 1);
    assert_eq!((24 * multiplicative_inverse(24, 101)) % 101, 1);
    assert_eq!(multiplicative_inverse(6, 9), 0);
    assert_eq!(multiplicative_inverse(3, 7), 5);
    for n in 2..50i64 {
        for a in 0..50i64 {
            let r = multiplicative_inverse(a, n);
            if stein_gcd(a, n) == 1 {
                assert!(0 <= r && r <= n);
                assert_eq!((r * a) % n, 1);
            } else {
                assert_eq!(r, 0);
            }
        }
    }
}
