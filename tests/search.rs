use fmgp::cursor::{
    advance_random_access, begin_random_access, distance_random_access, end_random_access,
    find_if, find_if_n, lower_bound, partition_point, partition_point_n, upper_bound,
};

#[test]
fn cursor_distance_and_advance() {
    let v = vec![1, 2, 3, 4, 5];
    let mut x = begin_random_access(v.as_slice());
    let y = end_random_access(v.as_slice());
    assert_eq!(distance_random_access(&x, &y), 5);
    advance_random_access(&mut x, 3);
    assert_eq!(x.index, 3);
    assert_eq!(*x.deref(), 4);
    x.successor();
    assert_eq!(distance_random_access(&x, &y), 1);
    x.successor();
    assert_eq!(x.index, y.index);
}

#[test]
fn linear_searches() {
    let v = vec![1, 2, 3, 4, 5];
    let x = begin_random_access(v.as_slice());
    let y = end_random_access(v.as_slice());
    let r = find_if(begin_random_access(v.as_slice()), &y, |e: &i32| *e == 3);
    assert_eq!(*r.deref(), 3);
    assert_eq!(r.index, 2);
    let none = find_if(begin_random_access(v.as_slice()), &y, |e: &i32| *e == 9);
    assert_eq!(none.index, 5);
    let (r, n) = find_if_n(x, 3, |e: &i32| *e == 3);
    assert_eq!(*r.deref(), 3);
    assert_eq!(n, 1);
    let (r, n) = find_if_n(begin_random_access(v.as_slice()), 2, |e: &i32| *e == 3);
    assert_eq!(r.index, 2);
    assert_eq!(n, 0);
}

#[test]
fn partition_points() {
    let v = vec![1, 2, 3, 4, 5];
    let y = end_random_access(v.as_slice());
    let r = partition_point(begin_random_access(v.as_slice()), &y, |e: &i32| *e < 3);
    assert_eq!(*r.deref(), 3);
    let r = partition_point_n(begin_random_access(v.as_slice()), 3, |e: &i32| *e < 3);
    assert_eq!(*r.deref(), 3);
    let r = partition_point(begin_random_access(v.as_slice()), &y, |e: &i32| *e < 100);
    assert_eq!(r.index, 5);
    let r = partition_point(begin_random_access(v.as_slice()), &y, |e: &i32| *e < 0);
    assert_eq!(r.index, 0);
}

#[test]
fn bounds_in_sorted_sequence() {
    let v = vec![1, 2, 3, 4, 5];
    let y = end_random_access(v.as_slice());
    let r = upper_bound(begin_random_access(v.as_slice()), &y, &2);
    assert_eq!(*r.deref(), 3);
    let r = lower_bound(begin_random_access(v.as_slice()), &y, &2);
    assert_eq!(*r.deref(), 2);
    let w = vec![1, 2, 2, 2, 7, 9];
    let z = end_random_access(w.as_slice());
    assert_eq!(lower_bound(begin_random_access(w.as_slice()), &z, &2).index, 1);
    assert_eq!(upper_bound(begin_random_access(w.as_slice()), &z, &2).index, 4);
    assert_eq!(lower_bound(begin_random_access(w.as_slice()), &z, &10).index, 6);
    assert_eq!(upper_bound(begin_random_access(w.as_slice()), &z, &0).index, 0);
    let e: Vec<i32> = Vec::new();
    let ez = end_random_access(e.as_slice());
    assert_eq!(lower_bound(begin_random_access(e.as_slice()), &ez, &1).index, 0);
}
