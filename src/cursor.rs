//! A random-access cursor over a slice, and the searches written with it:
//! linear search for a predicate and binary search for a partition point.
use vstd::prelude::*;

verus! {

/// A position in a slice. The end position carries no slice and cannot be
/// dereferenced.
pub struct SliceAdapter<'a, T> {
    pub index: usize,
    pub slice: Option<&'a [T]>,
}

impl<'a, T> SliceAdapter<'a, T> {
    /// Moves to the next position.
    pub fn successor(&mut self)
        requires
            old(self).index < usize::MAX,
        ensures
            final(self).index == old(self).index + 1,
            final(self).slice == old(self).slice,
    {
        self.index += 1;
    }

    /// The element at this position.
    pub fn deref(&self) -> (r: &'a T)
        requires
            self.slice is Some,
            self.index < self.slice.unwrap()@.len(),
        ensures
            *r == self.slice.unwrap()@[self.index as int],
    {
        let s = self.slice.unwrap();
        &s[self.index]
    }
}

/// The cursor at the first element of `slice`.
pub fn begin_random_access<'a, T>(slice: &'a [T]) -> (r: SliceAdapter<'a, T>)
    ensures
        r.index == 0,
        r.slice == Some(slice),
{
    SliceAdapter { index: 0, slice: Some(slice) }
}

/// The cursor just past the last element of `slice`.
pub fn end_random_access<'a, T>(slice: &'a [T]) -> (r: SliceAdapter<'a, T>)
    ensures
        r.index == slice@.len(),
        r.slice is None,
{
    SliceAdapter { index: slice.len(), slice: None }
}

/// The number of steps from `f` to `l`.
pub fn distance_random_access<'a, T>(f: &SliceAdapter<'a, T>, l: &SliceAdapter<'a, T>) -> (r: usize)
    requires
        f.index <= l.index,
    ensures
        r == l.index - f.index,
{
    l.index - f.index
}

/// Moves `x` forward by `n` positions.
pub fn advance_random_access<'a, T>(x: &mut SliceAdapter<'a, T>, n: usize)
    requires
        old(x).index + n <= usize::MAX,
    ensures
        final(x).index == old(x).index + n,
        final(x).slice == old(x).slice,
{
    x.index += n;
}

/// The predicate may be asked of every element.
pub open spec fn total_predicate<T, P: Fn(&T) -> bool>(p: P) -> bool {
    forall|x: &T| #[trigger] p.requires((x,))
}

/// The first position in `[f, l)` whose element satisfies `p`, or `l`.
pub fn find_if<'a, T, P: Fn(&T) -> bool>(f: SliceAdapter<'a, T>, l: &SliceAdapter<'a, T>, p: P) -> (r:
    SliceAdapter<'a, T>)
    requires
        f.slice is Some,
        f.index <= l.index <= f.slice.unwrap()@.len(),
        total_predicate::<T, P>(p),
    ensures
        r.slice == f.slice,
        f.index <= r.index <= l.index,
        forall|i: int| f.index <= i < r.index ==> p.ensures((&f.slice.unwrap()@[i],), false),
        r.index < l.index ==> p.ensures((&f.slice.unwrap()@[r.index as int],), true),
{
    let ghost s = f.slice.unwrap()@;
    proof {
        assert(s.len() == f.slice.unwrap().len());
    }
    let ghost f0 = f.index;
    let mut f = f;
    while f.index != l.index
        invariant_except_break
            f.index <= l.index,
        invariant
            f.slice is Some,
            f.slice.unwrap()@ == s,
            s.len() <= usize::MAX,
            l.index <= s.len(),
            f0 <= f.index,
            total_predicate::<T, P>(p),
            forall|i: int| f0 <= i < f.index ==> p.ensures((&s[i],), false),
        ensures
            f.index <= l.index,
            f.index < l.index ==> p.ensures((&s[f.index as int],), true),
        decreases l.index - f.index,
    {
        if p(f.deref()) {
            break;
        }
        f.successor();
    }
    f
}

/// The first of the `n` positions from `f` whose element satisfies `p`,
/// and how many positions remained from there; `n` steps on and `0` when
/// none does.
pub fn find_if_n<'a, T, P: Fn(&T) -> bool>(f: SliceAdapter<'a, T>, n: usize, p: P) -> (r: (
    SliceAdapter<'a, T>,
    usize,
))
    requires
        f.slice is Some,
        f.index + n <= f.slice.unwrap()@.len(),
        total_predicate::<T, P>(p),
    ensures
        r.0.slice == f.slice,
        r.0.index + r.1 == f.index + n,
        forall|i: int| f.index <= i < r.0.index ==> p.ensures((&f.slice.unwrap()@[i],), false),
        r.1 > 0 ==> p.ensures((&f.slice.unwrap()@[r.0.index as int],), true),
{
    let ghost s = f.slice.unwrap()@;
    proof {
        assert(s.len() == f.slice.unwrap().len());
    }
    let ghost f0 = f.index;
    let ghost n0 = n;
    let mut f = f;
    let mut n = n;
    while n != 0
        invariant_except_break
            true,
        invariant
            f.slice is Some,
            f.slice.unwrap()@ == s,
            s.len() <= usize::MAX,
            f.index + n == f0 + n0,
            f0 + n0 <= s.len(),
            f0 <= f.index,
            total_predicate::<T, P>(p),
            forall|i: int| f0 <= i < f.index ==> p.ensures((&s[i],), false),
        ensures
            n > 0 ==> p.ensures((&s[f.index as int],), true),
        decreases n,
    {
        if p(f.deref()) {
            break;
        }
        f.successor();
        n -= 1;
    }
    (f, n)
}

/// The partition point of the `n` positions from `f`, by bisection: a
/// position where the predicate turns from true to false. The element before
/// it satisfies `p` and the element at it does not, as far as they lie in
/// the range; where the elements satisfying `p` all come first, it is the
/// first position whose element does not.
pub fn partition_point_n<'a, T, P: Fn(&T) -> bool>(f: SliceAdapter<'a, T>, n: usize, p: P) -> (r:
    SliceAdapter<'a, T>)
    requires
        f.slice is Some,
        f.index + n <= f.slice.unwrap()@.len(),
        total_predicate::<T, P>(p),
    ensures
        r.slice == f.slice,
        f.index <= r.index <= f.index + n,
        r.index > f.index ==> p.ensures((&f.slice.unwrap()@[r.index - 1],), true),
        r.index < f.index + n ==> p.ensures((&f.slice.unwrap()@[r.index as int],), false),
{
    let ghost s = f.slice.unwrap()@;
    proof {
        assert(s.len() == f.slice.unwrap().len());
    }
    let ghost f0 = f.index as int;
    let ghost l0 = f.index + n;
    let mut f = f;
    let mut n = n;
    while n != 0
        invariant
            f.slice is Some,
            f.slice.unwrap()@ == s,
            s.len() <= usize::MAX,
            f0 <= f.index,
            f.index + n <= l0 <= s.len(),
            total_predicate::<T, P>(p),
            f.index > f0 ==> p.ensures((&s[f.index - 1],), true),
            f.index + n < l0 ==> p.ensures((&s[f.index + n],), false),
        decreases n,
    {
        let mut middle = SliceAdapter { index: f.index, slice: f.slice };
        let half = n / 2;
        advance_random_access(&mut middle, half);
        if !p(middle.deref()) {
            n = half;
        } else {
            middle.successor();
            f = middle;
            n = n - (half + 1);
        }
    }
    f
}

/// The partition point of `[f, l)`.
pub fn partition_point<'a, T, P: Fn(&T) -> bool>(f: SliceAdapter<'a, T>, l: &SliceAdapter<'a, T>, p: P) -> (r:
    SliceAdapter<'a, T>)
    requires
        f.slice is Some,
        f.index <= l.index <= f.slice.unwrap()@.len(),
        total_predicate::<T, P>(p),
    ensures
        r.slice == f.slice,
        f.index <= r.index <= l.index,
        r.index > f.index ==> p.ensures((&f.slice.unwrap()@[r.index - 1],), true),
        r.index < l.index ==> p.ensures((&f.slice.unwrap()@[r.index as int],), false),
{
    let n = distance_random_access(&f, l);
    partition_point_n(f, n, p)
}

/// The elements of `s` over `[f, l)` are in non-decreasing order.
pub open spec fn sorted_between(s: Seq<i32>, f: int, l: int) -> bool {
    forall|i: int, j: int| f <= i <= j < l ==> s[i] <= s[j]
}

/// The first position in the sorted range `[f, l)` whose element is not less
/// than `a`.
pub fn lower_bound<'a>(f: SliceAdapter<'a, i32>, l: &SliceAdapter<'a, i32>, a: &i32) -> (r: SliceAdapter<'a, i32>)
    requires
        f.slice is Some,
        f.index <= l.index <= f.slice.unwrap()@.len(),
        sorted_between(f.slice.unwrap()@, f.index as int, l.index as int),
    ensures
        r.slice == f.slice,
        f.index <= r.index <= l.index,
        forall|i: int| f.index <= i < r.index ==> f.slice.unwrap()@[i] < *a,
        forall|i: int| r.index <= i < l.index ==> f.slice.unwrap()@[i] >= *a,
{
    let ghost s = f.slice.unwrap()@;
    let below = |x: &i32| -> (b: bool)
        ensures
            b == (*x < *a),
        { *x < *a };
    let r = partition_point(f, l, below);
    proof {
        assert forall|i: int| f.index <= i < r.index implies s[i] < *a by {
            assert(s[i] <= s[r.index - 1]);
        }
        assert forall|i: int| r.index <= i < l.index implies s[i] >= *a by {
            assert(s[r.index as int] <= s[i]);
        }
    }
    r
}

/// The first position in the sorted range `[f, l)` whose element is greater
/// than `a`.
pub fn upper_bound<'a>(f: SliceAdapter<'a, i32>, l: &SliceAdapter<'a, i32>, a: &i32) -> (r: SliceAdapter<'a, i32>)
    requires
        f.slice is Some,
        f.index <= l.index <= f.slice.unwrap()@.len(),
        sorted_between(f.slice.unwrap()@, f.index as int, l.index as int),
    ensures
        r.slice == f.slice,
        f.index <= r.index <= l.index,
        forall|i: int| f.index <= i < r.index ==> f.slice.unwrap()@[i] <= *a,
        forall|i: int| r.index <= i < l.index ==> f.slice.unwrap()@[i] > *a,
{
    let ghost s = f.slice.unwrap()@;
    let not_above = |x: &i32| -> (b: bool)
        ensures
            b == (*x <= *a),
        { *x <= *a };
    let r = partition_point(f, l, not_above);
    proof {
        assert forall|i: int| f.index <= i < r.index implies s[i] <= *a by {
            assert(s[i] <= s[r.index - 1]);
        }
        assert forall|i: int| r.index <= i < l.index implies s[i] > *a by {
            assert(s[r.index as int] <= s[i]);
        }
    }
    r
}

} // verus!
