//! What holds of every rotation, whichever algorithm performs it.
use vstd::prelude::*;
use crate::cycle::rotate_transform;
use crate::span::{reversed_span, rotate_span, rotated};

verus! {

/// The three rotation schemes compute the same sequence: exchanging the
/// blocks `[f, m)` and `[m, l)` is what three reversals do, and what moving
/// each index's value from its image under the cycle transform does.
/// Rotating a whole sequence is exchanging the blocks of `[0, n)`.
pub proof fn lemma_rotations_agree<T>(s: Seq<T>, f: int, m: int, l: int)
    requires
        0 <= f <= m <= l <= s.len(),
    ensures
        reversed_span(reversed_span(reversed_span(s, f, m - f), m, l - m), f, l - f)
            == rotate_span(s, f, m, l),
        f < m < l ==> Seq::new(
            s.len(),
            |p: int|
                if f <= p < l {
                    s[rotate_transform(f, m, l, p)]
                } else {
                    s[p]
                },
        ) == rotate_span(s, f, m, l),
        f == 0 && l == s.len() ==> rotated(s, m) == rotate_span(s, f, m, l),
{
    let r = reversed_span(reversed_span(reversed_span(s, f, m - f), m, l - m), f, l - f);
    assert forall|i: int| 0 <= i < s.len() implies #[trigger] r[i] == rotate_span(s, f, m, l)[i] by {
        if f <= i < f + (l - m) {
            assert(r[i] == s[i + (m - f)]);
        } else if f + (l - m) <= i < l {
            assert(r[i] == s[i - (l - m)]);
        }
    }
    assert(r =~= rotate_span(s, f, m, l));
    if f < m < l {
        assert(Seq::new(
            s.len(),
            |p: int|
                if f <= p < l {
                    s[rotate_transform(f, m, l, p)]
                } else {
                    s[p]
                },
        ) =~= rotate_span(s, f, m, l));
    }
    if f == 0 && l == s.len() {
        assert(rotated(s, m) =~= rotate_span(s, f, m, l));
    }
}

/// A rotation moves the block `[m, l)` to `f` and the block `[f, m)` after
/// it, each in its own order, and leaves the rest in place.
pub proof fn lemma_blocks_exchanged<T>(s: Seq<T>, f: int, m: int, l: int)
    requires
        0 <= f <= m <= l <= s.len(),
    ensures
        rotate_span(s, f, m, l).len() == s.len(),
        forall|i: int| 0 <= i < l - m ==> #[trigger] rotate_span(s, f, m, l)[f + i] == s[m + i],
        forall|i: int| 0 <= i < m - f ==> #[trigger] rotate_span(s, f, m, l)[f + (l - m) + i] == s[f + i],
        forall|i: int| 0 <= i < f || l <= i < s.len() ==> #[trigger] rotate_span(s, f, m, l)[i] == s[i],
{
}

/// Rotating by `m` and then by the complementary pivot `l - m` gives back
/// the sequence it started from.
pub proof fn lemma_rotate_round_trip<T>(s: Seq<T>, f: int, m: int, l: int)
    requires
        0 <= f <= m <= l <= s.len(),
    ensures
        rotate_span(rotate_span(s, f, m, l), f, f + (l - m), l) == s,
        f == 0 && l == s.len() ==> rotated(rotated(s, m), l - m) == s,
{
    assert(rotate_span(rotate_span(s, f, m, l), f, f + (l - m), l) =~= s);
    if f == 0 && l == s.len() {
        assert(rotated(rotated(s, m), l - m) =~= s);
    }
}

/// A pivot at either end of the span leaves the sequence as it is.
pub proof fn lemma_degenerate_pivot<T>(s: Seq<T>, f: int, l: int)
    requires
        0 <= f <= l <= s.len(),
    ensures
        rotate_span(s, f, f, l) == s,
        rotate_span(s, f, l, l) == s,
        rotated(s, 0) == s,
        rotated(s, s.len() as int) == s,
{
    assert(rotate_span(s, f, f, l) =~= s);
    assert(rotate_span(s, f, l, l) =~= s);
    assert(rotated(s, 0) =~= s);
    assert(rotated(s, s.len() as int) =~= s);
}

} // verus!
