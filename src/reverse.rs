//! Reversal of a span, and rotation by reversal.
use vstd::prelude::*;
use crate::span::{exchanged, mirrored, reversed_span, rotated};
use crate::swap_ranges::{swap_at, swap_ranges_slice};

verus! {

/// Meeting the ends of a span `n / 2` times reverses it.
pub proof fn lemma_mirrored_half<T>(s: Seq<T>, f: int, n: int)
    requires
        0 <= f,
        0 <= n,
        f + n <= s.len(),
    ensures
        mirrored(s, f, n, n / 2) == reversed_span(s, f, n),
{
    assert(mirrored(s, f, n, n / 2) =~= reversed_span(s, f, n));
}

/// Reversing the two halves of a span and then exchanging them reverses the
/// span; an odd middle element stays where it is.
pub proof fn lemma_reverse_halves<T>(s: Seq<T>, f: int, n: int, h: int, m: int)
    requires
        0 <= f,
        0 <= h,
        f + n <= s.len(),
        m == f + h || m == f + h + 1,
        n == h + (m - f),
    ensures
        exchanged(reversed_span(reversed_span(s, f, h), m, h), f, m, h) == reversed_span(s, f, n),
{
    assert(exchanged(reversed_span(reversed_span(s, f, h), m, h), f, m, h) =~= reversed_span(s, f, n));
}

/// Reversing both blocks and then the whole sequence rotates it.
pub proof fn lemma_three_reversals<T>(s: Seq<T>, m: int)
    requires
        0 <= m <= s.len(),
    ensures
        reversed_span(reversed_span(reversed_span(s, 0, m), m, s.len() - m), 0, s.len() as int)
            == rotated(s, m),
{
    let n = s.len() as int;
    let s1 = reversed_span(reversed_span(s, 0, m), m, n - m);
    assert forall|i: int| 0 <= i < n implies #[trigger] reversed_span(s1, 0, n)[i] == rotated(s, m)[i] by {
        if i < n - m {
            assert(s1[n - 1 - i] == s[i + m]);
        } else {
            assert(s1[n - 1 - i] == s[i - (n - m)]);
        }
    }
    assert(reversed_span(s1, 0, n) =~= rotated(s, m));
}

/// Meeting the ends `k` times and then reversing what lies between them
/// reverses the whole span.
pub proof fn lemma_mirrored_then_middle<T>(s: Seq<T>, n: int, k: int)
    requires
        n == s.len(),
        0 <= k,
        2 * k <= n,
    ensures
        reversed_span(mirrored(s, 0, n, k), k, n - 2 * k) == reversed_span(s, 0, n),
{
    assert(reversed_span(mirrored(s, 0, n, k), k, n - 2 * k) =~= reversed_span(s, 0, n));
}

fn odd(n: usize) -> (r: bool)
    ensures
        r == (n % 2 == 1),
{
    n % 2 == 1
}

/// Reverses the `n` elements starting at `f` by exchanging them pairwise from
/// both ends towards the middle.
pub fn reverse_n<T>(slice: &mut [T], f: usize, n: usize)
    requires
        f + n <= old(slice).len(),
    ensures
        final(slice)@ == reversed_span(old(slice)@, f as int, n as int),
{
    let mut k: usize = n / 2;
    let mut lo = f;
    let mut hi = f + n;
    while k > 0
        invariant
            f + n <= old(slice)@.len(),
            k <= n / 2,
            lo == f + (n / 2 - k),
            hi == f + n - (n / 2 - k),
            slice@ == mirrored(old(slice)@, f as int, n as int, n / 2 - k),
        decreases k,
    {
        k -= 1;
        hi -= 1;
        swap_at(slice, lo, hi);
        lo += 1;
        assert(slice@ =~= mirrored(old(slice)@, f as int, n as int, n / 2 - k));
    }
    proof {
        lemma_mirrored_half(old(slice)@, f as int, n as int);
    }
}

/// Rotates the whole slice about `m` by reversing `[0, m)`, then `[m, n)`,
/// then everything.
pub fn three_reverse_rotate<T>(slice: &mut [T], m: usize)
    requires
        m <= old(slice)@.len(),
    ensures
        final(slice)@ == rotated(old(slice)@, m as int),
{
    let n = slice.len();
    reverse_n(slice, 0, m);
    reverse_n(slice, m, n - m);
    reverse_n(slice, 0, n);
    proof {
        lemma_three_reversals(old(slice)@, m as int);
    }
}

/// Exchanges the ends of the slice towards the middle until one end reaches
/// `m`; returns where the two ends stopped.
fn reverse_until<T>(slice: &mut [T], m: usize) -> (r: (usize, usize))
    requires
        m <= old(slice)@.len(),
    ensures
        r.0 == old(slice)@.len() - r.1,
        r.0 == m || r.1 == m,
        r.0 <= m <= r.1,
        final(slice)@ == mirrored(old(slice)@, 0, old(slice)@.len() as int, r.0 as int),
{
    let (mut f, mut l): (usize, usize) = (0, slice.len());
    while f != m && m != l
        invariant
            l == old(slice)@.len() - f,
            f <= m <= l,
            slice@ == mirrored(old(slice)@, 0, old(slice)@.len() as int, f as int),
        decreases l - f,
    {
        l -= 1;
        swap_at(slice, f, l);
        f += 1;
        assert(slice@ =~= mirrored(old(slice)@, 0, old(slice)@.len() as int, f as int));
    }
    (f, l)
}

/// Rotates the whole slice about `m` by reversals, reversing only as far as
/// the shorter block reaches before fixing the middle; returns where the
/// first element went, `n - m`.
pub fn rotate_bidirectional<T>(slice: &mut [T], m: usize) -> (r: usize)
    requires
        m <= old(slice)@.len(),
    ensures
        final(slice)@ == rotated(old(slice)@, m as int),
        r == old(slice)@.len() - m,
{
    let n = slice.len();
    reverse_n(slice, 0, m);
    reverse_n(slice, m, n - m);
    let ghost s1 = slice@;
    let p = reverse_until(slice, m);
    reverse_n(slice, p.0, p.1 - p.0);
    proof {
        lemma_mirrored_then_middle(s1, n as int, p.0 as int);
        lemma_three_reversals(old(slice)@, m as int);
    }
    if m == p.0 {
        return p.1;
    }
    p.0
}

/// Reverses the `n` elements starting at `f` by reversing each half and
/// exchanging the halves; returns `f + n`.
pub fn reverse_recursive<T>(slice: &mut [T], f: usize, n: usize) -> (r: usize)
    requires
        f + n <= old(slice).len(),
    ensures
        final(slice)@ == reversed_span(old(slice)@, f as int, n as int),
        r == f + n,
    decreases n,
{
    if n == 0 {
        assert(slice@ =~= reversed_span(old(slice)@, f as int, n as int));
        return f;
    }
    if n == 1 {
        assert(slice@ =~= reversed_span(old(slice)@, f as int, n as int));
        return f + 1;
    }
    let h = n / 2;
    let mut m = reverse_recursive(slice, f, h);
    if odd(n) {
        m += 1;
    }
    let last = reverse_recursive(slice, m, h);
    swap_ranges_slice(slice, f, m, m, m + h);
    proof {
        lemma_reverse_halves(old(slice)@, f as int, n as int, h as int, m as int);
    }
    last
}

/// Copies the `n` elements of `slice` starting at `f` to the front of
/// `result`; returns `n`, the position in `result` past the copies.
fn copy_n<T: Copy>(slice: &[T], f: usize, n: usize, result: &mut [T]) -> (r: usize)
    requires
        f + n <= slice.len(),
        n <= old(result)@.len(),
    ensures
        r == n,
        final(result)@ == slice@.subrange(f as int, f + n) + old(result)@.subrange(
            n as int,
            old(result)@.len() as int,
        ),
{
    let mut i: usize = 0;
    while i < n
        invariant
            i <= n,
            f + n <= slice.len(),
            n <= old(result)@.len(),
            result@.len() == old(result)@.len(),
            forall|k: int| 0 <= k < i ==> result@[k] == slice@[f + k],
            forall|k: int| i <= k < result@.len() ==> result@[k] == old(result)@[k],
        decreases n - i,
    {
        result[i] = slice[f + i];
        i += 1;
    }
    assert(result@ =~= slice@.subrange(f as int, f + n) + old(result)@.subrange(n as int, old(result)@.len() as int));
    n
}

/// Writes the first `n` elements of `buffer`, last first, into `result`
/// from position `f`; returns `f + n`.
fn reverse_copy<T: Copy>(buffer: &[T], n: usize, result: &mut [T], f: usize) -> (r: usize)
    requires
        n <= buffer@.len(),
        f + n <= old(result).len(),
    ensures
        r == f + n,
        final(result)@.len() == old(result)@.len(),
        forall|i: int| f <= i < f + n ==> final(result)@[i] == buffer@[n - 1 - (i - f)],
        forall|i: int| 0 <= i < old(result)@.len() && !(f <= i < f + n) ==> final(result)@[i] == old(result)@[i],
{
    let mut i: usize = 0;
    while i < n
        invariant
            i <= n,
            n <= buffer@.len(),
            f + n <= old(result).len(),
            result@.len() == old(result)@.len(),
            forall|k: int| f <= k < f + i ==> result@[k] == buffer@[n - 1 - (k - f)],
            forall|k: int| 0 <= k < result@.len() && !(f <= k < f + i) ==> result@[k] == old(result)@[k],
        decreases n - i,
    {
        result[f + i] = buffer[n - 1 - i];
        i += 1;
    }
    f + n
}

/// Reverses the `n` elements starting at `f` through the scratch buffer,
/// which must hold at least `n` elements.
fn reverse_n_with_buffer<T: Copy>(slice: &mut [T], f: usize, n: usize, buffer: &mut [T])
    requires
        f + n <= old(slice).len(),
        n <= old(buffer)@.len(),
    ensures
        final(slice)@ == reversed_span(old(slice)@, f as int, n as int),
        final(buffer)@.len() == old(buffer)@.len(),
{
    copy_n(slice, f, n, buffer);
    reverse_copy(buffer, n, slice, f);
    assert(slice@ =~= reversed_span(old(slice)@, f as int, n as int));
}

fn advance(it: &mut usize, n: usize)
    requires
        *old(it) + n <= usize::MAX,
    ensures
        *final(it) == *old(it) + n,
{
    *it += n;
}

/// Reverses the `n` elements starting at `f`, through the scratch buffer
/// where they fit in it, and otherwise by reversing each half and exchanging
/// the halves. The result does not depend on the buffer's size, which may be
/// zero; the buffer's contents are left unspecified. Returns `f + n`.
pub fn reverse_n_adaptive<T: Copy>(slice: &mut [T], f: usize, n: usize, buffer: &mut [T]) -> (r: usize)
    requires
        f + n <= old(slice).len(),
    ensures
        final(slice)@ == reversed_span(old(slice)@, f as int, n as int),
        final(buffer)@.len() == old(buffer)@.len(),
        r == f + n,
    decreases n,
{
    if n == 0 {
        assert(slice@ =~= reversed_span(old(slice)@, f as int, n as int));
        return f;
    }
    if n == 1 {
        assert(slice@ =~= reversed_span(old(slice)@, f as int, n as int));
        return f + 1;
    }
    if n <= buffer.len() {
        reverse_n_with_buffer(slice, f, n, buffer);
        return f + n;
    }
    let h = n / 2;
    let mut m = reverse_n_adaptive(slice, f, h, buffer);
    advance(&mut m, n % 2);
    let last = reverse_n_adaptive(slice, m, h, buffer);
    swap_ranges_slice(slice, f, m, m, m + h);
    proof {
        lemma_reverse_halves(old(slice)@, f as int, n as int, h as int, m as int);
    }
    last
}

} // verus!
