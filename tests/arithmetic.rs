use fmgp::ancient;
use fmgp::euclid::{
    _fast_segment_remainder1, fast_segment_gcm, gcd, gcm, gcm0, gcm1, gcm_remainder, quotient,
    quotient_remainder, remainder, remainder_fibonacci,
};
use fmgp::fibonacci::{fib0, fibonacci_iterative};
use fmgp::multiply::{
    mult_acc0, mult_acc1, mult_acc2, mult_acc3, mult_acc4, multiply0, multiply1, multiply2,
    multiply3, multiply4, multiply_by_15,
};

#[test]
fn multiplications_of_seven_by_eight() {
    assert_eq!(multiply0(7, 8), 56);
    assert_eq!(multiply1(7, 8), 56);
    assert_eq!(multiply2(7, 8), 56);
    assert_eq!(multiply3(7, 8), 56);
    assert_eq!(multiply4(7, 8), 56);
    assert_eq!(multiply_by_15(15), 225);
}

#[test]
fn multiply_accumulates() {
    assert_eq!(mult_acc0(0, 7, 8), 56);
    assert_eq!(mult_acc1(0, 7, 8), 56);
    assert_eq!(mult_acc2(0, 7, 8), 56);
    assert_eq!(mult_acc3(0, 7, 8), 56);
    assert_eq!(mult_acc4(0, 7, 8), 56);
    assert_eq!(mult_acc4(5, 16, 3), 53);
    assert_eq!(mult_acc0(-10, 3, 4), 2);
}

#[test]
fn multiplications_agree_over_a_range() {
    for n in 1..40 {
        for a in -20..20 {
            let want = n * a;
            assert_eq!(multiply0(n, a), want);
            assert_eq!(multiply1(n, a), want);
            assert_eq!(multiply2(n, a), want);
            assert_eq!(multiply3(n, a), want);
            assert_eq!(multiply4(n, a), want);
            assert_eq!(mult_acc0(7, n, a), 7 + want);
            assert_eq!(mult_acc1(7, n, a), 7 + want);
            assert_eq!(mult_acc2(7, n, a), 7 + want);
            assert_eq!(mult_acc3(7, n, a), 7 + want);
            assert_eq!(mult_acc4(7, n, a), 7 + want);
        }
    }
}

#[test]
fn multiplication_at_the_edge_of_i32() {
    assert_eq!(multiply4(2, 1_073_741_823), 2_147_483_646);
    assert_eq!(multiply1(1 << 30, -2), i32::MIN);
    assert_eq!(multiply3(65_536, 32_767), 2_147_418_112);
    assert_eq!(mult_acc4(i32::MAX - 10, 5, 2), i32::MAX);
}

#[test]
fn greatest_common_measures() {
    assert_eq!(gcm0(121, 66), 11);
    assert_eq!(gcm1(121, 66), 11);
    assert_eq!(gcm(121, 66), 11);
    assert_eq!(fast_segment_gcm(121, 66), 11);
    assert_eq!(gcm_remainder(121, 66), 11);
    assert_eq!(gcd(121, 66), 11);
    assert_eq!(ancient::gcm(15, 9), 3);
    assert_eq!(gcm0(9, 9), 9);
    assert_eq!(gcm1(1, 1_000_000), 1);
    assert_eq!(fast_segment_gcm(1_000_000, 24), 8);
    assert_eq!(gcm_remainder(0, 5), 5);
    assert_eq!(gcd(5, 0), 5);
}

#[test]
fn remainders_and_quotients() {
    assert_eq!(remainder(100, 7), 2);
    assert_eq!(quotient(100, 7), 14);
    assert_eq!(quotient_remainder(100, 7), (14, 2));
    assert_eq!(remainder_fibonacci(100, 7), 2);
    assert_eq!(_fast_segment_remainder1(100, 7), 2);
    assert_eq!(remainder(6, 7), 6);
    assert_eq!(quotient_remainder(6, 7), (0, 6));
    assert_eq!(remainder(u32::MAX, 1), 0);
    assert_eq!(quotient(u32::MAX, 2), u32::MAX / 2);
    assert_eq!(remainder_fibonacci(5, u32::MAX), 5);
    assert_eq!(remainder_fibonacci(u32::MAX / 2, 3), (u32::MAX / 2) % 3);
    assert_eq!(remainder_fibonacci(u32::MAX / 2, 1), 0);
}

#[test]
fn remainders_agree_over_a_range() {
    for a in 0..300u32 {
        for b in 1..40u32 {
            assert_eq!(remainder(a, b), a % b);
            assert_eq!(remainder_fibonacci(a, b), a % b);
            assert_eq!(_fast_segment_remainder1(a, b), a % b);
            assert_eq!(quotient(a, b), a / b);
            assert_eq!(quotient_remainder(a, b), (a / b, a % b));
            if a > 0 {
                let g = gcd(a, b);
                assert_eq!(gcm0(a, b), g);
                assert_eq!(gcm1(a, b), g);
                assert_eq!(gcm(a, b), g);
                assert_eq!(fast_segment_gcm(a, b), g);
                assert_eq!(gcm_remainder(a, b), g);
                assert_eq!(ancient::gcm(a, b), g);
            }
        }
    }
}

#[test]
fn fibonacci_numbers() {
    assert_eq!(fib0(5), 5);
    assert_eq!(fibonacci_iterative(5), 5);
    assert_eq!(fib0(0), 0);
    assert_eq!(fibonacci_iterative(0), 0);
    assert_eq!(fibonacci_iterative(1), 1);
    assert_eq!(fibonacci_iterative(2), 1);
    assert_eq!(fib0(20), 6765);
    assert_eq!(fibonacci_iterative(46), 1_836_311_903);
}

use fmgp::polynomial::polynomial_value;

#[test]
fn horner_evaluation() {
    assert_eq!(polynomial_value(&[1, 2, 3], 10), 123);
    assert_eq!(polynomial_value(&[], 10), 0);
    assert_eq!(polynomial_value(&[7], -3), 7);
    assert_eq!(polynomial_value(&[2, 0, -1], -3), 17);
    assert_eq!(polynomial_value(&[1, 0, 0, 0], 1000), 1_000_000_000);
}
