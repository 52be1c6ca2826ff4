//! Rotation by cycle leaders: each element is moved once, straight to its
//! destination, following the cycles of the rotation's index permutation.
use vstd::prelude::*;
use vstd::arithmetic::div_mod::{
    lemma_add_mod_noop, lemma_fundamental_div_mod, lemma_fundamental_div_mod_converse,
    lemma_mod_equivalence, lemma_mod_multiples_vanish, lemma_small_mod,
};
use crate::gcd::{bezout, gcd, gcd_of, lemma_bezout, lemma_gcd_divides};
use crate::span::rotated;

verus! {

/// The index whose value index `i` receives when `[f, m)` and `[m, l)` are
/// exchanged: the cycle rotation's index transform.
pub open spec fn rotate_transform(f: int, m: int, l: int, i: int) -> int {
    if i < f + (l - m) {
        i + (m - f)
    } else {
        i - (l - m)
    }
}

/// `i` after `t` applications of the index transform.
pub open spec fn iterate_transform(f: int, m: int, l: int, i: int, t: nat) -> int
    decreases t,
{
    if t == 0 {
        i
    } else {
        rotate_transform(f, m, l, iterate_transform(f, m, l, i, (t - 1) as nat))
    }
}

/// Offset from the start of a span of length `n` after `t` steps of `u`,
/// starting from offset `j`.
pub open spec fn orbit_offset(n: int, u: int, j: int, t: int) -> int {
    (j + t * u) % n
}

/// Within the span, the transform adds `m - f` to the offset, modulo the length.
proof fn lemma_transform_is_shift(f: int, m: int, l: int, i: int)
    requires
        f < m < l,
        f <= i < l,
    ensures
        rotate_transform(f, m, l, i) == f + ((i - f) + (m - f)) % (l - f),
{
    let n = l - f;
    let x = (i - f) + (m - f);
    if i < f + (l - m) {
        lemma_small_mod(x as nat, n as nat);
    } else {
        lemma_fundamental_div_mod_converse(x, n, 1, x - n);
    }
}

/// Arithmetic facts behind the cycle decomposition, for blocks of sizes `u`
/// and `n - u`, with `d` their greatest common divisor.
proof fn lemma_cycle_arith(n: int, u: int) -> (r: (int, int, int, int))
    requires
        0 < u < n,
    ensures
        ({
            let (d, len, w, y) = r;
            &&& d == gcd_of(u as nat, (n - u) as nat)
            &&& d > 0
            &&& d <= n
            &&& len == n / d
            &&& d * len == n
            &&& 0 < len
            &&& u % d == 0
            &&& d * (u / d) == u
            &&& w * u + y * n == d
        }),
{
    let v = n - u;
    let d = gcd_of(u as nat, v as nat) as int;
    lemma_gcd_divides(u as nat, v as nat);
    lemma_bezout(u as nat, v as nat);
    let (x, y) = bezout(u as nat, v as nat);
    lemma_fundamental_div_mod(u, d);
    lemma_fundamental_div_mod(v, d);
    let u1 = u / d;
    let v1 = v / d;
    assert(n == (u1 + v1) * d + 0) by (nonlinear_arith)
        requires
            u == d * u1,
            v == d * v1,
            n == u + v,
    ;
    lemma_fundamental_div_mod_converse(n, d, u1 + v1, 0);
    let len = n / d;
    assert(len == u1 + v1);
    assert(n == d * len) by (nonlinear_arith)
        requires
            n == (u1 + v1) * d + 0,
            len == u1 + v1,
    ;
    assert(0 < len) by (nonlinear_arith)
        requires
            n == d * len,
            n > 0,
            d > 0,
    ;
    assert(d <= n) by (nonlinear_arith)
        requires
            n == d * len,
            0 < len,
            d > 0,
    ;
    assert((x - y) * u + y * n == d) by (nonlinear_arith)
        requires
            x * u + y * v == d,
            v == n - u,
    ;
    (d, len, x - y, y)
}

/// The orbit of an offset returns to it after `n / d` steps.
proof fn lemma_orbit_returns(n: int, u: int, d: int, len: int, j: int)
    requires
        0 < u < n,
        d > 0,
        d * len == n,
        d * (u / d) == u,
        0 <= j < n,
    ensures
        orbit_offset(n, u, j, len) == j,
{
    let u1 = u / d;
    assert(j + len * u == n * u1 + j) by (nonlinear_arith)
        requires
            d * len == n,
            d * u1 == u,
    ;
    lemma_mod_multiples_vanish(u1, j, n);
    lemma_small_mod(j as nat, n as nat);
}

/// Fewer than `n / d` steps never lead an offset back to where it was.
proof fn lemma_orbit_distinct(n: int, u: int, d: int, len: int, w: int, y: int, j: int, a: int, b: int)
    requires
        0 < u < n,
        d > 0,
        d * len == n,
        d * (u / d) == u,
        w * u + y * n == d,
        0 <= a < b,
        b - a < len,
    ensures
        orbit_offset(n, u, j, a) != orbit_offset(n, u, j, b),
{
    if orbit_offset(n, u, j, a) == orbit_offset(n, u, j, b) {
        let t = b - a;
        assert((j + b * u) - (j + a * u) == t * u) by (nonlinear_arith)
            requires
                t == b - a,
        ;
        lemma_mod_equivalence(j + b * u, j + a * u, n);
        lemma_fundamental_div_mod(t * u, n);
        let q = (t * u) / n;
        let u1 = u / d;
        assert(t * u == n * q);
        assert(t * u1 == len * q) by (nonlinear_arith)
            requires
                t * u == n * q,
                d * len == n,
                d * u1 == u,
                d > 0,
        ;
        assert(w * u1 + y * len == 1) by (nonlinear_arith)
            requires
                w * u + y * n == d,
                d * len == n,
                d * u1 == u,
                d > 0,
        ;
        assert(t == len * (w * q + y * t)) by (nonlinear_arith)
            requires
                t * u1 == len * q,
                w * u1 + y * len == 1,
        ;
        assert(false) by (nonlinear_arith)
            requires
                t == len * (w * q + y * t),
                0 < t < len,
        ;
    }
}

/// Every offset congruent to `j` modulo `d` lies on the orbit of `j`,
/// within its first `n / d` steps.
proof fn lemma_orbit_reaches(n: int, u: int, d: int, len: int, w: int, y: int, j: int, p: int) -> (t: int)
    requires
        0 < u < n,
        d > 0,
        d * len == n,
        d * (u / d) == u,
        w * u + y * n == d,
        0 < len,
        0 <= j < d,
        0 <= p < n,
        p % d == j,
    ensures
        0 <= t < len,
        orbit_offset(n, u, j, t) == p,
{
    let u1 = u / d;
    lemma_fundamental_div_mod(p, d);
    let c = p / d;
    assert(p == d * c + j);
    lemma_fundamental_div_mod(c * w, len);
    let r = (c * w) / len;
    let k = (c * w) % len;
    assert(k * u == c * w * u - len * r * u) by (nonlinear_arith)
        requires
            c * w == len * r + k,
    ;
    assert(c * w * u == c * d - c * y * n) by (nonlinear_arith)
        requires
            w * u + y * n == d,
    ;
    assert(len * r * u == r * u1 * n) by (nonlinear_arith)
        requires
            d * len == n,
            d * u1 == u,
    ;
    assert(n * (-(c * y + r * u1)) == -(c * y * n) - r * u1 * n) by (nonlinear_arith);
    assert(c * d == d * c) by (nonlinear_arith);
    assert(j + k * u == n * (-(c * y + r * u1)) + p);
    lemma_mod_multiples_vanish(-(c * y + r * u1), p, n);
    lemma_small_mod(p as nat, n as nat);
    k
}

/// Offsets on the orbit of `j` stay congruent to `j` modulo `d`.
proof fn lemma_orbit_class(n: int, u: int, d: int, len: int, j: int, t: int)
    requires
        0 < u < n,
        d > 0,
        d * len == n,
        d * (u / d) == u,
        0 <= j < d,
    ensures
        orbit_offset(n, u, j, t) % d == j,
{
    let u1 = u / d;
    let x = j + t * u;
    lemma_fundamental_div_mod(x, n);
    let q = x / n;
    assert(x % n == d * (t * u1 - len * q) + j) by (nonlinear_arith)
        requires
            x == j + t * u,
            x == n * q + x % n,
            d * len == n,
            d * u1 == u,
    ;
    lemma_mod_multiples_vanish(t * u1 - len * q, j, d);
    lemma_small_mod(j as nat, d as nat);
}

/// One more step along the orbit is one more application of the transform.
proof fn lemma_orbit_step(f: int, m: int, l: int, j: int, t: int)
    requires
        f < m < l,
        0 <= j,
    ensures
        0 <= orbit_offset(l - f, m - f, j, t) < l - f,
        rotate_transform(f, m, l, f + orbit_offset(l - f, m - f, j, t)) == f + orbit_offset(
            l - f,
            m - f,
            j,
            t + 1,
        ),
{
    let n = l - f;
    let u = m - f;
    let x = j + t * u;
    lemma_transform_is_shift(f, m, l, f + x % n);
    lemma_add_mod_noop(x, u, n);
    lemma_small_mod(u as nat, n as nat);
    assert(x + u == j + (t + 1) * u) by (nonlinear_arith)
        requires
            x == j + t * u,
    ;
}

/// A step keeps an offset within its residue class modulo `d`.
proof fn lemma_step_class(n: int, u: int, d: int, len: int, x: int)
    requires
        0 < u < n,
        d > 0,
        d * len == n,
        d * (u / d) == u,
        0 <= x < n,
    ensures
        ((x + u) % n) % d == x % d,
{
    let u1 = u / d;
    lemma_fundamental_div_mod(x + u, n);
    let q = (x + u) / n;
    lemma_fundamental_div_mod(x, d);
    assert((x + u) % n == d * (x / d + u1 - len * q) + x % d) by (nonlinear_arith)
        requires
            x + u == n * q + (x + u) % n,
            x == d * (x / d) + x % d,
            d * len == n,
            d * u1 == u,
    ;
    lemma_mod_multiples_vanish(x / d + u1 - len * q, x % d, d);
    lemma_small_mod((x % d) as nat, d as nat);
}

/// Applying the transform `t` times to an index of the span moves its offset
/// forward by `t * (m - f)`, modulo the span's length.
proof fn lemma_iterate_is_orbit(f: int, m: int, l: int, j: int, t: nat)
    requires
        f < m < l,
        0 <= j < l - f,
    ensures
        iterate_transform(f, m, l, f + j, t) == f + orbit_offset(l - f, m - f, j, t as int),
    decreases t,
{
    if t == 0 {
        lemma_small_mod(j as nat, (l - f) as nat);
        assert(j + 0 * (m - f) == j);
    } else {
        lemma_iterate_is_orbit(f, m, l, j, (t - 1) as nat);
        lemma_orbit_step(f, m, l, j, t - 1);
    }
}

/// Exchanging `[f, m)` and `[m, l)` by cycle leaders takes exactly
/// `d = gcd(m - f, l - m)` cycles. From each leader `f + j`, `j < d`, the
/// transform comes back after exactly `(l - f) / d` steps and meets no index
/// twice before; each index of the span lies on the cycle of the leader
/// named by `cycle_of`, and on no other. The cycles thus hold `l - f` indices
/// between them, and as each index is written once, the rotation makes
/// exactly `l - f` moves.
pub proof fn lemma_rotation_cycles(f: int, m: int, l: int)
    requires
        f < m < l,
    ensures
        ({
            let d = gcd_of((m - f) as nat, (l - m) as nat) as int;
            let len = (l - f) / d;
            &&& 0 < d <= l - f
            &&& d * len == l - f
            &&& forall|j: int| 0 <= j < d ==> #[trigger] iterate_transform(f, m, l, f + j, len as nat) == f + j
            &&& forall|j: int, a: nat, b: nat|
                0 <= j < d && a < b < len ==> #[trigger] iterate_transform(f, m, l, f + j, a)
                    != #[trigger] iterate_transform(f, m, l, f + j, b)
            &&& forall|j: int, t: nat|
                0 <= j < d ==> f <= #[trigger] iterate_transform(f, m, l, f + j, t) < l
                    && cycle_of(f, m, l, iterate_transform(f, m, l, f + j, t)) == j
            &&& forall|p: int|
                f <= p < l ==> 0 <= #[trigger] cycle_of(f, m, l, p) < d && exists|t: nat|
                    t < len && #[trigger] iterate_transform(f, m, l, f + cycle_of(f, m, l, p), t) == p
        }),
{
    let n = l - f;
    let u = m - f;
    let (d, len, w, y) = lemma_cycle_arith(n, u);
    assert forall|j: int| 0 <= j < d implies #[trigger] iterate_transform(f, m, l, f + j, len as nat) == f + j by {
        lemma_iterate_is_orbit(f, m, l, j, len as nat);
        lemma_orbit_returns(n, u, d, len, j);
    }
    assert forall|j: int, a: nat, b: nat|
        0 <= j < d && a < b < len implies #[trigger] iterate_transform(f, m, l, f + j, a)
            != #[trigger] iterate_transform(f, m, l, f + j, b) by {
        lemma_iterate_is_orbit(f, m, l, j, a);
        lemma_iterate_is_orbit(f, m, l, j, b);
        lemma_orbit_distinct(n, u, d, len, w, y, j, a as int, b as int);
    }
    assert forall|j: int, t: nat| 0 <= j < d implies f <= #[trigger] iterate_transform(f, m, l, f + j, t) < l
        && cycle_of(f, m, l, iterate_transform(f, m, l, f + j, t)) == j by {
        lemma_iterate_is_orbit(f, m, l, j, t);
        lemma_orbit_step(f, m, l, j, t as int);
        lemma_orbit_class(n, u, d, len, j, t as int);
    }
    assert forall|p: int| f <= p < l implies 0 <= #[trigger] cycle_of(f, m, l, p) < d && exists|t: nat|
        t < len && #[trigger] iterate_transform(f, m, l, f + cycle_of(f, m, l, p), t) == p by {
        let j = cycle_of(f, m, l, p);
        lemma_small_mod(j as nat, d as nat);
        assert(j % d == j);
        lemma_mod_mod_helper(p - f, d);
        let t = lemma_orbit_reaches(n, u, d, len, w, y, j, p - f);
        lemma_iterate_is_orbit(f, m, l, j, t as nat);
        assert(iterate_transform(f, m, l, f + j, t as nat) == p);
    }
}

proof fn lemma_mod_mod_helper(x: int, d: int)
    requires
        d > 0,
    ensures
        (x % d) % d == x % d,
{
    lemma_small_mod((x % d) as nat, d as nat);
}

/// The index transform of the span `[f, l)` with pivot `m`, in the form that
/// the cycle rotation evaluates: offsets forward for the indices that move
/// forward, backward for the others.
struct RotateTransform {
    plus: usize,
    minus: usize,
    m1: usize,
}

impl RotateTransform {
    spec fn first(&self) -> int {
        self.m1 - self.minus
    }

    spec fn pivot(&self) -> int {
        self.m1 - self.minus + self.plus
    }

    spec fn last(&self) -> int {
        self.m1 + self.plus
    }

    fn new(f: usize, m: usize, l: usize) -> (r: RotateTransform)
        requires
            f <= m <= l,
        ensures
            r.first() == f,
            r.pivot() == m,
            r.last() == l,
            r.m1 == f + (l - m),
    {
        RotateTransform { plus: m - f, minus: l - m, m1: f + (l - m) }
    }

    /// The index whose value index `i` receives.
    fn call(&self, i: usize) -> (r: usize)
        requires
            0 <= self.first() <= i < self.last() <= usize::MAX,
        ensures
            r == rotate_transform(self.first(), self.pivot(), self.last(), i as int),
    {
        if i < self.m1 {
            i + self.plus
        } else {
            i - self.minus
        }
    }
}

/// The residue, modulo the number of cycles, that names the cycle on which
/// index `p` lies when `[f, m)` and `[m, l)` are exchanged.
pub open spec fn cycle_of(f: int, m: int, l: int, p: int) -> int {
    (p - f) % (gcd_of((m - f) as nat, (l - m) as nat) as int)
}

/// Moves each value of one cycle of the transform one step along it,
/// starting at its leader `i`: every index `p` of the cycle receives the
/// value that was at `from(p)`.
fn rotate_cycle_from<T: Copy>(slice: &mut [T], i: usize, from: &RotateTransform)
    requires
        0 <= from.first() < from.pivot() < from.last() <= old(slice)@.len(),
        from.first() <= i < from.first() + gcd_of(from.plus as nat, from.minus as nat),
    ensures
        final(slice)@.len() == old(slice)@.len(),
        forall|p: int|
            0 <= p < old(slice)@.len() ==> final(slice)@[p] == if from.first() <= p < from.last()
                && cycle_of(from.first(), from.pivot(), from.last(), p) == i - from.first() {
                old(slice)@[rotate_transform(from.first(), from.pivot(), from.last(), p)]
            } else {
                old(slice)@[p]
            },
{
    let ghost f = from.first();
    let ghost m = from.pivot();
    let ghost l = from.last();
    let ghost n = l - f;
    let ghost u = m - f;
    let ghost j0 = i - f;
    let ghost mut facts: (int, int, int, int) = (0, 0, 0, 0);
    proof {
        facts = lemma_cycle_arith(n, u);
    }
    let ghost d = facts.0;
    let ghost len = facts.1;
    let ghost w = facts.2;
    let ghost y = facts.3;
    proof {
        assert(j0 < n);
        lemma_small_mod(j0 as nat, n as nat);
        assert(j0 + 0 * u == j0);
        lemma_orbit_step(f, m, l, j0, 0);
    }
    let tmp = slice[i];
    let start = i;
    let mut cur = i;
    let mut next = from.call(cur);
    let ghost mut k: int = 0;
    while next != start
        invariant
            0 <= f < m < l <= slice@.len(),
            f == from.first(),
            m == from.pivot(),
            l == from.last(),
            n == l - f,
            u == m - f,
            d == gcd_of(u as nat, (n - u) as nat),
            0 <= j0 < d,
            start == f + j0,
            d > 0,
            d <= n,
            d * len == n,
            d * (u / d) == u,
            w * u + y * n == d,
            0 < len,
            slice@.len() == old(slice)@.len(),
            tmp == old(slice)@[start as int],
            0 <= k < len,
            cur == f + orbit_offset(n, u, j0, k),
            next == f + orbit_offset(n, u, j0, k + 1),
            forall|t: int|
                0 <= t < k ==> slice@[f + #[trigger] orbit_offset(n, u, j0, t)] == old(slice)@[f
                    + orbit_offset(n, u, j0, t + 1)],
            forall|p: int|
                0 <= p < slice@.len() && (forall|t: int|
                    0 <= t < k ==> p != f + #[trigger] orbit_offset(n, u, j0, t)) ==> slice@[p]
                    == old(slice)@[p],
        decreases len - k,
    {
        proof {
            if k + 1 == len {
                lemma_orbit_returns(n, u, d, len, j0);
            }
            assert forall|t: int| 0 <= t < k implies next != f + #[trigger] orbit_offset(n, u, j0, t) by {
                lemma_orbit_distinct(n, u, d, len, w, y, j0, t, k + 1);
            }
            assert forall|t: int| 0 <= t < k implies cur != f + #[trigger] orbit_offset(n, u, j0, t) by {
                lemma_orbit_distinct(n, u, d, len, w, y, j0, t, k);
            }
            lemma_orbit_distinct(n, u, d, len, w, y, j0, k, k + 1);
            lemma_orbit_step(f, m, l, j0, k + 1);
        }
        slice[cur] = slice[next];
        cur = next;
        next = from.call(next);
        proof {
            k = k + 1;
        }
    }
    proof {
        if k + 1 < len {
            lemma_orbit_distinct(n, u, d, len, w, y, j0, 0, k + 1);
            assert(orbit_offset(n, u, j0, 0) == j0);
        }
        lemma_orbit_returns(n, u, d, len, j0);
        assert forall|t: int| 0 <= t < k implies cur != f + #[trigger] orbit_offset(n, u, j0, t) by {
            lemma_orbit_distinct(n, u, d, len, w, y, j0, t, k);
        }
    }
    slice[cur] = tmp;
    proof {
        assert forall|p: int| 0 <= p < old(slice)@.len() implies slice@[p] == if f <= p < l
            && cycle_of(f, m, l, p) == j0 {
            old(slice)@[rotate_transform(f, m, l, p)]
        } else {
            old(slice)@[p]
        } by {
            if f <= p < l && cycle_of(f, m, l, p) == j0 {
                let t = lemma_orbit_reaches(n, u, d, len, w, y, j0, p - f);
                lemma_orbit_step(f, m, l, j0, t);
            } else {
                assert forall|t: int| 0 <= t <= k implies p != f + #[trigger] orbit_offset(n, u, j0, t) by {
                    lemma_orbit_class(n, u, d, len, j0, t);
                    lemma_orbit_step(f, m, l, j0, t);
                }
            }
        }
    }
}

/// Rotates the whole slice about `m` by following the cycles of the index
/// transform, moving every element once; returns where the first element
/// went, `n - m`.
pub fn rotate_random_access<T: Copy>(slice: &mut [T], m: usize) -> (r: usize)
    requires
        m <= old(slice)@.len(),
    ensures
        final(slice)@ == rotated(old(slice)@, m as int),
        r == old(slice)@.len() - m,
{
    let (f, l): (usize, usize) = (0, slice.len());
    if f == m {
        assert(slice@ =~= rotated(old(slice)@, m as int));
        return l;
    }
    if m == l {
        assert(slice@ =~= rotated(old(slice)@, m as int));
        return f;
    }
    let mut cycles = gcd(m - f, l - m);
    let rotator = RotateTransform::new(f, m, l);
    let ghost d = cycles as int;
    let ghost mut facts: (int, int, int, int) = (0, 0, 0, 0);
    proof {
        facts = lemma_cycle_arith(l - f, m - f);
    }
    let ghost len = facts.1;
    while cycles > 0
        invariant
            0 == f < m < l == slice@.len() == old(slice)@.len(),
            rotator.first() == f,
            rotator.pivot() == m,
            rotator.last() == l,
            rotator.m1 == l - m,
            d == gcd_of(rotator.plus as nat, rotator.minus as nat),
            d == gcd_of((m - f) as nat, ((l - f) - (m - f)) as nat),
            d > 0,
            d * len == l - f,
            d * ((m - f) / d) == m - f,
            0 <= cycles <= d,
            forall|p: int|
                0 <= p < l ==> slice@[p] == if cycle_of(f as int, m as int, l as int, p) >= cycles {
                    old(slice)@[rotate_transform(f as int, m as int, l as int, p)]
                } else {
                    old(slice)@[p]
                },
        decreases cycles,
    {
        cycles -= 1;
        let ghost before = slice@;
        rotate_cycle_from(slice, f + cycles, &rotator);
        proof {
            assert forall|p: int| 0 <= p < l implies slice@[p] == if cycle_of(f as int, m as int, l as int, p) >= cycles {
                old(slice)@[rotate_transform(f as int, m as int, l as int, p)]
            } else {
                old(slice)@[p]
            } by {
                if cycle_of(f as int, m as int, l as int, p) == cycles {
                    lemma_transform_is_shift(f as int, m as int, l as int, p);
                    lemma_step_class(l - f, m - f, d, len, p);
                }
            }
        }
    }
    assert(slice@ =~= rotated(old(slice)@, m as int));
    rotator.m1
}

} // verus!
