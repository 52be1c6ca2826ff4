use fmgp::cycle::rotate_random_access;
use fmgp::gcd::gcd;
use fmgp::reverse::{rotate_bidirectional, three_reverse_rotate};
use fmgp::rotate::{gries_mills_rotate, rotate_forward};

fn expected_rotation(v: &[i32], m: usize) -> Vec<i32> {
    let mut r = v[m..].to_vec();
    r.extend_from_slice(&v[..m]);
    r
}

#[test]
fn block_exchange_example_all_algorithms() {
    let start = vec![1, 2, 3, 4, 5, 6, 7];
    let want = vec![5, 6, 7, 1, 2, 3, 4];

    let mut v = start.clone();
    gries_mills_rotate(&mut v, 4);
    assert_eq!(v, want);

    let mut v = start.clone();
    assert_eq!(rotate_forward(&mut v, 4), 3);
    assert_eq!(v, want);

    let mut v = start.clone();
    assert_eq!(rotate_random_access(&mut v, 4), 3);
    assert_eq!(v, want);

    let mut v = start.clone();
    three_reverse_rotate(&mut v, 4);
    assert_eq!(v, want);

    let mut v = start.clone();
    assert_eq!(rotate_bidirectional(&mut v, 4), 3);
    assert_eq!(v, want);
}

#[test]
fn algorithms_agree_on_every_pivot() {
    for n in 0..13usize {
        let start: Vec<i32> = (0..n as i32).map(|x| x * 10 + 1).collect();
        for m in 0..=n {
            let want = expected_rotation(&start, m);
            let mut a = start.clone();
            gries_mills_rotate(&mut a, m);
            let mut b = start.clone();
            let rb = rotate_forward(&mut b, m);
            let mut c = start.clone();
            let rc = rotate_random_access(&mut c, m);
            let mut d = start.clone();
            three_reverse_rotate(&mut d, m);
            let mut e = start.clone();
            let re = rotate_bidirectional(&mut e, m);
            assert_eq!(a, want);
            assert_eq!(b, want);
            assert_eq!(c, want);
            assert_eq!(d, want);
            assert_eq!(e, want);
            assert_eq!(rb, n - m);
            assert_eq!(rc, n - m);
            assert_eq!(re, n - m);
        }
    }
}

#[test]
fn rotation_round_trip_restores() {
    let start = vec![1, 2, 3, 4, 5, 6, 7];
    let mut v = start.clone();
    let m1 = rotate_forward(&mut v, 4);
    assert_eq!(m1, 3);
    rotate_forward(&mut v, m1);
    assert_eq!(v, start);

    let m1 = rotate_random_access(&mut v, 5);
    assert_eq!(v, vec![6, 7, 1, 2, 3, 4, 5]);
    rotate_random_access(&mut v, m1);
    assert_eq!(v, start);

    let m1 = rotate_bidirectional(&mut v, 2);
    rotate_bidirectional(&mut v, m1);
    assert_eq!(v, start);
}

#[test]
fn degenerate_pivot_leaves_sequence() {
    let start = vec![3, 1, 4, 1, 5];
    let mut v = start.clone();
    assert_eq!(rotate_forward(&mut v, 0), 5);
    assert_eq!(v, start);
    assert_eq!(rotate_forward(&mut v, 5), 0);
    assert_eq!(v, start);
    assert_eq!(rotate_random_access(&mut v, 0), 5);
    assert_eq!(rotate_random_access(&mut v, 5), 0);
    assert_eq!(v, start);
    assert_eq!(rotate_bidirectional(&mut v, 0), 5);
    assert_eq!(rotate_bidirectional(&mut v, 5), 0);
    assert_eq!(v, start);
    gries_mills_rotate(&mut v, 0);
    gries_mills_rotate(&mut v, 5);
    three_reverse_rotate(&mut v, 0);
    three_reverse_rotate(&mut v, 5);
    assert_eq!(v, start);
}

#[test]
fn empty_sequence_rotates() {
    let mut v: Vec<i32> = Vec::new();
    assert_eq!(rotate_forward(&mut v, 0), 0);
    assert_eq!(rotate_random_access(&mut v, 0), 0);
    assert_eq!(rotate_bidirectional(&mut v, 0), 0);
    gries_mills_rotate(&mut v, 0);
    three_reverse_rotate(&mut v, 0);
    assert!(v.is_empty());
}

#[test]
fn cycle_rotation_with_several_cycles() {
    // blocks of 4 and 6: two cycles of five elements each
    let start: Vec<i32> = (0..10).collect();
    let mut v = start.clone();
    assert_eq!(gcd(4, 6), 2);
    assert_eq!(rotate_random_access(&mut v, 4), 6);
    assert_eq!(v, vec![4, 5, 6, 7, 8, 9, 0, 1, 2, 3]);
    // blocks of 3 and 6: three cycles
    let start: Vec<i32> = (0..9).collect();
    let mut v = start.clone();
    assert_eq!(gcd(3, 6), 3);
    assert_eq!(rotate_random_access(&mut v, 3), 6);
    assert_eq!(v, vec![3, 4, 5, 6, 7, 8, 0, 1, 2]);
}

#[test]
fn gcd_values() {
    assert_eq!(gcd(12, 18), 6);
    assert_eq!(gcd(18, 12), 6);
    assert_eq!(gcd(7, 5), 1);
    assert_eq!(gcd(0, 9), 9);
    assert_eq!(gcd(9, 0), 9);
    assert_eq!(gcd(0, 0), 0);
}

#[test]
fn rotation_of_owned_values() {
    let start: Vec<String> = ["a", "b", "c", "d", "e"].iter().map(|s| s.to_string()).collect();
    let mut v = start.clone();
    assert_eq!(rotate_forward(&mut v, 2), 3);
    assert_eq!(v, vec!["c", "d", "e", "a", "b"]);
    let mut w = start.clone();
    assert_eq!(rotate_bidirectional(&mut w, 3), 2);
    assert_eq!(w, vec!["d", "e", "a", "b", "c"]);
}

#[test]
fn successive_rotations_return_to_start() {
    let mut v = vec![1, 2, 3, 4, 5, 6, 7];
    gries_mills_rotate(&mut v, 4);
    assert_eq!(v, vec![5, 6, 7, 1, 2, 3, 4]);
    gries_mills_rotate(&mut v, 3);
    assert_eq!(v, vec![1, 2, 3, 4, 5, 6, 7]);
    let m1 = rotate_forward(&mut v, 4);
    assert_eq!(v, vec![5, 6, 7, 1, 2, 3, 4]);
    rotate_forward(&mut v, m1);
    assert_eq!(v, vec![1, 2, 3, 4, 5, 6, 7]);
    three_reverse_rotate(&mut v, 4);
    assert_eq!(v, vec![5, 6, 7, 1, 2, 3, 4]);
    three_reverse_rotate(&mut v, 3);
    assert_eq!(v, vec![1, 2, 3, 4, 5, 6, 7]);
}

#[test]
fn rotation_of_a_span_inside_a_sequence() {
    // the span [2, 7) with pivot 4: blocks [2, 4) and [4, 7)
    let start = vec![0, 1, 2, 3, 4, 5, 6, 7, 8];
    let want = vec![0, 1, 4, 5, 6, 2, 3, 7, 8];
    let mut a = start.clone();
    assert_eq!(rotate_forward(&mut a[2..7], 2), 3);
    assert_eq!(a, want);
    let mut b = start.clone();
    assert_eq!(rotate_random_access(&mut b[2..7], 2), 3);
    assert_eq!(b, want);
    let mut c = start.clone();
    assert_eq!(rotate_bidirectional(&mut c[2..7], 2), 3);
    assert_eq!(c, want);
    let mut d = start.clone();
    gries_mills_rotate(&mut d[2..7], 2);
    three_reverse_rotate(&mut d[2..7], 3);
    assert_eq!(d, start);
}
