//! Rotation by repeated block exchange, using forward traversal only.
use vstd::prelude::*;
use crate::span::{exchanged, rotate_span, rotated};
use crate::swap_ranges::swap_ranges_slice;

verus! {

/// One block exchange of the Gries–Mills scheme: after exchanging the first
/// `min(m - f, l - m)` elements of the two blocks, what remains to be done is
/// again a block exchange, on a smaller span.
pub proof fn lemma_exchange_step<T>(s: Seq<T>, f: int, m: int, l: int)
    requires
        0 <= f < m < l <= s.len(),
    ensures
        m - f == l - m ==> exchanged(s, f, m, m - f) == rotate_span(s, f, m, l),
        m - f < l - m ==> rotate_span(exchanged(s, f, m, m - f), m, m + (m - f), l)
            == rotate_span(s, f, m, l),
        l - m < m - f ==> rotate_span(exchanged(s, f, m, l - m), f + (l - m), m, l)
            == rotate_span(s, f, m, l),
{
    if m - f == l - m {
        assert(exchanged(s, f, m, m - f) =~= rotate_span(s, f, m, l));
    } else if m - f < l - m {
        assert(rotate_span(exchanged(s, f, m, m - f), m, m + (m - f), l) =~= rotate_span(s, f, m, l));
    } else {
        assert(rotate_span(exchanged(s, f, m, l - m), f + (l - m), m, l) =~= rotate_span(s, f, m, l));
    }
}

/// Rotating the whole sequence is exchanging the blocks of the span `[0, n)`.
pub proof fn lemma_rotated_is_span<T>(s: Seq<T>, m: int)
    requires
        0 <= m <= s.len(),
    ensures
        rotated(s, m) == rotate_span(s, 0, m, s.len() as int),
{
    assert(rotated(s, m) =~= rotate_span(s, 0, m, s.len() as int));
}

/// Rotates the whole slice about `m` (Gries–Mills): afterwards it holds
/// `[m, n)` followed by `[0, m)`.
pub fn gries_mills_rotate<T>(slice: &mut [T], m: usize)
    requires
        m <= old(slice)@.len(),
    ensures
        final(slice)@ == rotated(old(slice)@, m as int),
{
    let ghost target = rotated(old(slice)@, m as int);
    proof {
        lemma_rotated_is_span(old(slice)@, m as int);
    }
    let mut m = m;
    let (mut f, l): (usize, usize) = (0, slice.len());
    if f == m || m == l {
        assert(target =~= old(slice)@);
        return;
    }
    proof {
        lemma_exchange_step(slice@, f as int, m as int, l as int);
    }
    let mut p = swap_ranges_slice(slice, f, m, m, l);
    while p.0 != m || p.1 != l
        invariant
            f < m < l == slice@.len(),
            f < p.0 <= m <= p.1 <= l,
            p.0 - f == p.1 - m,
            p.0 == m || p.1 == l,
            p.0 == m && p.1 == l ==> slice@ == target,
            p.0 == m && p.1 < l ==> rotate_span(slice@, m as int, p.1 as int, l as int) == target,
            p.0 < m && p.1 == l ==> rotate_span(slice@, p.0 as int, m as int, l as int) == target,
        decreases l - f,
    {
        if p.0 == m {
            f = m;
            m = p.1;
        } else {
            f = p.0;
        }
        proof {
            lemma_exchange_step(slice@, f as int, m as int, l as int);
        }
        p = swap_ranges_slice(slice, f, m, m, l);
    }
}

/// Exchanges the blocks `[f, m)` and `[m, n)`, both non-empty.
fn rotate_unguarded<T>(slice: &mut [T], f: usize, m: usize)
    requires
        f < m < old(slice)@.len(),
    ensures
        final(slice)@ == rotate_span(old(slice)@, f as int, m as int, old(slice)@.len() as int),
{
    let ghost target = rotate_span(old(slice)@, f as int, m as int, old(slice)@.len() as int);
    let mut f = f;
    let mut m = m;
    let l = slice.len();
    proof {
        lemma_exchange_step(slice@, f as int, m as int, l as int);
    }
    let mut p = swap_ranges_slice(slice, f, m, m, l);
    while p.0 != m || p.1 != l
        invariant
            f < m < l == slice@.len(),
            f < p.0 <= m <= p.1 <= l,
            p.0 - f == p.1 - m,
            p.0 == m || p.1 == l,
            p.0 == m && p.1 == l ==> slice@ == target,
            p.0 == m && p.1 < l ==> rotate_span(slice@, m as int, p.1 as int, l as int) == target,
            p.0 < m && p.1 == l ==> rotate_span(slice@, p.0 as int, m as int, l as int) == target,
        decreases l - f,
    {
        f = p.0;
        if m == f {
            m = p.1;
        }
        proof {
            lemma_exchange_step(slice@, f as int, m as int, l as int);
        }
        p = swap_ranges_slice(slice, f, m, m, l);
    }
}

/// Rotates the whole slice about `m` by block exchange and returns where the
/// first element went, `n - m`.
pub fn rotate_forward<T>(slice: &mut [T], m: usize) -> (r: usize)
    requires
        m <= old(slice)@.len(),
    ensures
        final(slice)@ == rotated(old(slice)@, m as int),
        r == old(slice)@.len() - m,
{
    let ghost target = rotated(old(slice)@, m as int);
    proof {
        lemma_rotated_is_span(old(slice)@, m as int);
    }
    let mut mid = m;
    let (mut f, l): (usize, usize) = (0, slice.len());
    if f == m {
        assert(target =~= old(slice)@);
        return l;
    }
    if m == l {
        assert(target =~= old(slice)@);
        return f;
    }
    proof {
        lemma_exchange_step(slice@, f as int, mid as int, l as int);
    }
    let mut p = swap_ranges_slice(slice, f, mid, mid, l);
    while p.0 != mid || p.1 != l
        invariant
            f < mid < l == slice@.len(),
            f + (l - mid) == l - m,
            0 < m < l == old(slice)@.len(),
            target == rotated(old(slice)@, m as int),
            f < p.0 <= mid <= p.1 <= l,
            p.0 - f == p.1 - mid,
            p.0 == mid || p.1 == l,
            p.0 == mid && p.1 == l ==> slice@ == target,
            p.0 == mid && p.1 < l ==> rotate_span(slice@, mid as int, p.1 as int, l as int) == target,
            p.0 < mid && p.1 == l ==> rotate_span(slice@, p.0 as int, mid as int, l as int) == target,
        decreases l - f,
    {
        if p.1 == l {
            rotate_unguarded(slice, p.0, mid);
            return p.0;
        }
        f = mid;
        mid = p.1;
        proof {
            lemma_exchange_step(slice@, f as int, mid as int, l as int);
        }
        p = swap_ranges_slice(slice, f, mid, mid, l);
    }
    mid
}

} // verus!
