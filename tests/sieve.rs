use fmgp::ancient::{mark_sieve, sift, sift0, sift1};

fn odd_primes_of(v: &[bool]) -> Vec<usize> {
    v.iter().enumerate().filter(|(_, x)| **x).map(|(i, _)| 2 * i + 3).collect()
}

fn is_prime(p: usize) -> bool {
    p >= 2 && (2..p).all(|d| p % d != 0)
}

#[test]
fn sieves_of_fifty_positions() {
    let want = vec![
        3, 5, 7, 11, 13, 17, 19, 23, 29, 31, 37, 41, 43, 47, 53, 59, 61, 67, 71, 73, 79, 83, 89, 97, 101,
    ];
    let mut v = vec![false; 500];
    sift0(&mut v[..50]);
    assert_eq!(odd_primes_of(&v[..50]), want);
    let mut w = vec![false; 50];
    sift1(&mut w);
    assert_eq!(odd_primes_of(&w), want);
    let mut x = vec![true; 50];
    sift(&mut x);
    assert_eq!(odd_primes_of(&x), want);
}

#[test]
fn sieve_of_five_hundred_positions() {
    let mut v = vec![false; 500];
    sift(&mut v);
    for (i, x) in v.iter().enumerate() {
        assert_eq!(*x, is_prime(2 * i + 3), "position {}", i);
    }
    assert_eq!(odd_primes_of(&v).len(), 167);
}

#[test]
fn sieves_of_small_sizes_agree() {
    for n in 0..120 {
        let mut a = vec![false; n];
        let mut b = vec![true; n];
        let mut c = vec![false; n];
        sift0(&mut a);
        sift1(&mut b);
        sift(&mut c);
        let want: Vec<bool> = (0..n).map(|i| is_prime(2 * i + 3)).collect();
        assert_eq!(a, want);
        assert_eq!(b, want);
        assert_eq!(c, want);
    }
}

#[test]
fn mark_sieve_clears_multiples() {
    let mut v = vec![true; 10];
    mark_sieve(&mut v, 3);
    assert_eq!(v, vec![false, true, true, false, true, true, false, true, true, false]);
    let mut w = vec![true; 1];
    mark_sieve(&mut w, 5);
    assert_eq!(w, vec![false]);
}
