use fmgp::reverse::{reverse_n, reverse_n_adaptive, reverse_recursive};
use fmgp::swap_ranges::{swap_ranges, swap_ranges_bounded, swap_ranges_n};

#[test]
fn adaptive_reversal_any_buffer_size() {
    for b in [0usize, 1, 2, 3, 4, 7, 10] {
        let mut v = vec![1, 2, 3, 4, 5, 6, 7];
        let mut buffer = vec![0; b];
        assert_eq!(reverse_n_adaptive(&mut v, 0, 7, &mut buffer), 7);
        assert_eq!(v, vec![7, 6, 5, 4, 3, 2, 1]);
        assert_eq!(buffer.len(), b);
    }
}

#[test]
fn adaptive_reversal_inside_a_sequence() {
    for b in 0..12usize {
        let mut v: Vec<i32> = (0..14).collect();
        let mut buffer = vec![-1; b];
        assert_eq!(reverse_n_adaptive(&mut v, 2, 10, &mut buffer), 12);
        assert_eq!(v, vec![0, 1, 11, 10, 9, 8, 7, 6, 5, 4, 3, 2, 12, 13]);
    }
}

#[test]
fn adaptive_reversal_base_cases() {
    let mut v = vec![1, 2, 3];
    let mut buffer: Vec<i32> = Vec::new();
    assert_eq!(reverse_n_adaptive(&mut v, 1, 0, &mut buffer), 1);
    assert_eq!(reverse_n_adaptive(&mut v, 1, 1, &mut buffer), 2);
    assert_eq!(v, vec![1, 2, 3]);
}

#[test]
fn recursive_reversal() {
    let mut v = vec![1, 2, 3, 4, 5, 6, 7];
    assert_eq!(reverse_recursive(&mut v, 0, 7), 7);
    assert_eq!(v, vec![7, 6, 5, 4, 3, 2, 1]);
    assert_eq!(reverse_recursive(&mut v, 0, 7), 7);
    assert_eq!(v, vec![1, 2, 3, 4, 5, 6, 7]);
    assert_eq!(reverse_recursive(&mut v, 2, 4), 6);
    assert_eq!(v, vec![1, 2, 6, 5, 4, 3, 7]);
    assert_eq!(reverse_recursive(&mut v, 3, 0), 3);
    assert_eq!(reverse_recursive(&mut v, 3, 1), 4);
    assert_eq!(v, vec![1, 2, 6, 5, 4, 3, 7]);
}

#[test]
fn pairwise_reversal() {
    let mut v = vec![1, 2, 3, 4, 5, 6, 7];
    reverse_n(&mut v, 0, 7);
    assert_eq!(v, vec![7, 6, 5, 4, 3, 2, 1]);
    reverse_n(&mut v, 0, 7);
    assert_eq!(v, vec![1, 2, 3, 4, 5, 6, 7]);
    reverse_n(&mut v, 1, 4);
    assert_eq!(v, vec![1, 5, 4, 3, 2, 6, 7]);
    reverse_n(&mut v, 6, 0);
    assert_eq!(v, vec![1, 5, 4, 3, 2, 6, 7]);
}

#[test]
fn swap_ranges_n_exchanges_exactly_n() {
    let mut a = vec![1, 2, 3, 4];
    let mut b = vec![5, 6, 7, 8, 9];
    assert_eq!(swap_ranges_n(&mut a, &mut b, 2), (2, 2));
    assert_eq!(a, vec![5, 6, 3, 4]);
    assert_eq!(b, vec![1, 2, 7, 8, 9]);
    assert_eq!(swap_ranges_n(&mut a, &mut b, 0), (0, 0));
    assert_eq!(a, vec![5, 6, 3, 4]);
    assert_eq!(b, vec![1, 2, 7, 8, 9]);
}

#[test]
fn swap_ranges_on_split_sequence() {
    let mut v = vec![1, 2, 3, 4, 5, 6, 7];
    {
        let (left, right) = v.split_at_mut(3);
        assert_eq!(swap_ranges(left, &mut right[1..]), 3);
    }
    assert_eq!(v, vec![5, 6, 7, 4, 1, 2, 3]);
    {
        let (left, right) = v.split_at_mut(4);
        assert_eq!(swap_ranges_bounded(left, right), (3, 3));
    }
    assert_eq!(v, vec![1, 2, 3, 4, 5, 6, 7]);
    {
        let (left, right) = v.split_at_mut(4);
        assert_eq!(swap_ranges_n(left, right, 3), (3, 3));
    }
    assert_eq!(v, vec![5, 6, 7, 4, 1, 2, 3]);
}

#[test]
fn swap_ranges_bounded_stops_at_shorter() {
    let mut a = vec![1, 2];
    let mut b = vec![3, 4, 5];
    assert_eq!(swap_ranges_bounded(&mut a, &mut b), (2, 2));
    assert_eq!(a, vec![3, 4]);
    assert_eq!(b, vec![1, 2, 5]);
    let mut c: Vec<i32> = Vec::new();
    assert_eq!(swap_ranges_bounded(&mut a, &mut c), (0, 0));
    assert_eq!(a, vec![3, 4]);
}

#[test]
fn swap_ranges_leaves_rest_of_longer() {
    let mut a = vec![String::from("x"), String::from("y")];
    let mut b = vec![String::from("p"), String::from("q"), String::from("r")];
    assert_eq!(swap_ranges(&mut a, &mut b), 2);
    assert_eq!(a, vec!["p", "q"]);
    assert_eq!(b, vec!["x", "y", "r"]);
}
