//! Mathematical models of the rearrangements performed on a span.
use vstd::prelude::*;

verus! {

/// `s` with its blocks `[f, m)` and `[m, l)` exchanged; everything outside
/// `[f, l)` stays where it is.
pub open spec fn rotate_span<T>(s: Seq<T>, f: int, m: int, l: int) -> Seq<T> {
    s.subrange(0, f) + s.subrange(m, l) + s.subrange(f, m) + s.subrange(l, s.len() as int)
}

/// The whole sequence rotated about the pivot `m`: `[m, n)` followed by `[0, m)`.
pub open spec fn rotated<T>(s: Seq<T>, m: int) -> Seq<T> {
    s.subrange(m, s.len() as int) + s.subrange(0, m)
}

/// `s` with the `k` elements starting at `a` exchanged pairwise with the `k`
/// elements starting at `b`.
pub open spec fn exchanged<T>(s: Seq<T>, a: int, b: int, k: int) -> Seq<T> {
    Seq::new(
        s.len(),
        |i: int|
            if a <= i < a + k {
                s[b + (i - a)]
            } else if b <= i < b + k {
                s[a + (i - b)]
            } else {
                s[i]
            },
    )
}

/// `s` with the `n` elements starting at `f` in reverse order.
pub open spec fn reversed_span<T>(s: Seq<T>, f: int, n: int) -> Seq<T> {
    Seq::new(s.len(), |i: int| if f <= i < f + n { s[f + n - 1 - (i - f)] } else { s[i] })
}

/// `s` with the first `k` and the last `k` of the `n` elements starting at
/// `f` exchanged mirror-wise: the state of a reversal that has met its ends
/// `k` times.
pub open spec fn mirrored<T>(s: Seq<T>, f: int, n: int, k: int) -> Seq<T> {
    Seq::new(
        s.len(),
        |i: int|
            if (f <= i < f + k) || (f + n - k <= i < f + n) {
                s[f + n - 1 - (i - f)]
            } else {
                s[i]
            },
    )
}

} // verus!
