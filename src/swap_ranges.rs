//! Pairwise exchange of two ranges: the primitive beneath every rotation.
use vstd::prelude::*;
use crate::span::exchanged;

verus! {

/// Exchanges `s[i]` and `s[j]`.
pub(crate) fn swap_at<T>(s: &mut [T], i: usize, j: usize)
    requires
        i < old(s)@.len(),
        j < old(s)@.len(),
    ensures
        final(s)@ == old(s)@.update(i as int, old(s)@[j as int]).update(j as int, old(s)@[i as int]),
{
    if i < j {
        let (a, b) = s.split_at_mut(j);
        core::mem::swap(&mut a[i], &mut b[0]);
    } else if j < i {
        let (a, b) = s.split_at_mut(i);
        core::mem::swap(&mut a[j], &mut b[0]);
    } else {
        assert(old(s)@.update(i as int, old(s)@[j as int]).update(j as int, old(s)@[i as int]) =~= old(s)@);
    }
}

/// Exchanges exactly `n` pairs: `first0[k]` with `first1[k]` for each `k < n`.
/// Both ranges must hold at least `n` elements; those past `n` are left
/// untouched. Returns the positions, in each range, just past the exchanged
/// elements.
pub fn swap_ranges_n<T>(first0: &mut [T], first1: &mut [T], n: usize) -> (r: (usize, usize))
    requires
        n <= old(first0)@.len(),
        n <= old(first1)@.len(),
    ensures
        r == (n, n),
        final(first0)@ == old(first1)@.subrange(0, n as int) + old(first0)@.subrange(
            n as int,
            old(first0)@.len() as int,
        ),
        final(first1)@ == old(first0)@.subrange(0, n as int) + old(first1)@.subrange(
            n as int,
            old(first1)@.len() as int,
        ),
{
    let mut i: usize = 0;
    while i < n
        invariant
            i <= n,
            n <= first0@.len(),
            n <= first1@.len(),
            first0@.len() == old(first0)@.len(),
            first1@.len() == old(first1)@.len(),
            forall|k: int| 0 <= k < i ==> first0@[k] == old(first1)@[k] && first1@[k] == old(first0)@[k],
            forall|k: int| i <= k < first0@.len() ==> first0@[k] == old(first0)@[k],
            forall|k: int| i <= k < first1@.len() ==> first1@[k] == old(first1)@[k],
        decreases n - i,
    {
        core::mem::swap(&mut first0[i], &mut first1[i]);
        i += 1;
    }
    assert(first0@ =~= old(first1)@.subrange(0, n as int) + old(first0)@.subrange(n as int, old(first0)@.len() as int));
    assert(first1@ =~= old(first0)@.subrange(0, n as int) + old(first1)@.subrange(n as int, old(first1)@.len() as int));
    (n, n)
}

/// Exchanges `first0` with the front of `first1`, which must be at least as
/// long. Returns the position in `first1` where its unexchanged remainder
/// starts.
pub fn swap_ranges<T>(first0: &mut [T], first1: &mut [T]) -> (r: usize)
    requires
        old(first0)@.len() <= old(first1)@.len(),
    ensures
        r == old(first0)@.len(),
        final(first0)@ == old(first1)@.subrange(0, r as int),
        final(first1)@ == old(first0)@ + old(first1)@.subrange(r as int, old(first1)@.len() as int),
{
    let n = first0.len();
    swap_ranges_n(first0, first1, n);
    assert(old(first0)@.subrange(0, n as int) =~= old(first0)@);
    assert(first0@ =~= old(first1)@.subrange(0, n as int));
    n
}

/// Exchanges elements pairwise until either range is exhausted. Returns the
/// positions, in each range, just past the exchanged elements; one of them is
/// the end of its range.
pub fn swap_ranges_bounded<T>(first0: &mut [T], first1: &mut [T]) -> (r: (usize, usize))
    ensures
        r.0 == r.1,
        r.0 == old(first0)@.len() || r.0 == old(first1)@.len(),
        r.0 <= old(first0)@.len() && r.0 <= old(first1)@.len(),
        final(first0)@ == old(first1)@.subrange(0, r.0 as int) + old(first0)@.subrange(
            r.0 as int,
            old(first0)@.len() as int,
        ),
        final(first1)@ == old(first0)@.subrange(0, r.0 as int) + old(first1)@.subrange(
            r.0 as int,
            old(first1)@.len() as int,
        ),
{
    let n = if first0.len() <= first1.len() {
        first0.len()
    } else {
        first1.len()
    };
    swap_ranges_n(first0, first1, n)
}

/// Within one sequence, exchanges `[f0, l0)` and `[f1, l1)` pairwise until
/// either is exhausted; returns the positions just past the exchanged
/// elements in each.
pub(crate) fn swap_ranges_slice<T>(
    slice: &mut [T],
    f0: usize,
    l0: usize,
    f1: usize,
    l1: usize,
) -> (r: (usize, usize))
    requires
        f0 <= l0 <= f1 <= l1 <= old(slice)@.len(),
    ensures
        r.0 - f0 == r.1 - f1,
        r.0 == l0 || r.1 == l1,
        f0 <= r.0 <= l0,
        f1 <= r.1 <= l1,
        final(slice)@ == exchanged(old(slice)@, f0 as int, f1 as int, r.0 - f0),
{
    let k = if l0 - f0 <= l1 - f1 {
        l0 - f0
    } else {
        l1 - f1
    };
    let mut i: usize = 0;
    while i < k
        invariant
            i <= k,
            k <= l0 - f0,
            k <= l1 - f1,
            f0 <= l0 <= f1 <= l1 <= old(slice)@.len(),
            slice@ == exchanged(old(slice)@, f0 as int, f1 as int, i as int),
        decreases k - i,
    {
        swap_at(slice, f0 + i, f1 + i);
        i += 1;
        assert(slice@ =~= exchanged(old(slice)@, f0 as int, f1 as int, i as int));
    }
    (f0 + k, f1 + k)
}

} // verus!
