//! The sieve of Eratosthenes over the odd numbers, and the greatest common
//! measure of two segments by recursive subtraction.
use vstd::prelude::*;
use crate::gcd::{gcd_of, lemma_gcd_self, lemma_gcd_subtract, lemma_gcd_symmetric};

verus! {

/// Two multiples of `factor`, the second above the first, are at least
/// `factor` apart.
proof fn lemma_next_multiple(i: int, first: int, factor: int)
    requires
        factor > 0,
        first >= 0,
        i > first,
        i % factor == 0,
        first % factor == 0,
    ensures
        i >= first + factor,
{
    vstd::arithmetic::div_mod::lemma_fundamental_div_mod(i, factor);
    vstd::arithmetic::div_mod::lemma_fundamental_div_mod(first, factor);
    let q = i / factor;
    let p = first / factor;
    assert(i >= first + factor) by (nonlinear_arith)
        requires
            i == factor * q,
            first == factor * p,
            i > first,
            factor > 0,
    ;
}

/// Clears every position of `slice` that is a multiple of `factor`,
/// position 0 included; the others keep their values.
pub fn mark_sieve(slice: &mut [bool], factor: usize)
    requires
        old(slice)@.len() > 0,
        factor > 0,
    ensures
        final(slice)@.len() == old(slice)@.len(),
        forall|i: int|
            0 <= i < old(slice)@.len() ==> final(slice)@[i] == (old(slice)@[i] && i % factor as int
                != 0),
{
    let (mut first, last): (usize, usize) = (0, slice.len());
    slice[first] = false;
    while last - first > factor
        invariant
            factor > 0,
            first < last == slice@.len() == old(slice)@.len(),
            first % factor == 0,
            forall|i: int|
                0 <= i < last ==> slice@[i] == (old(slice)@[i] && !(i % factor as int == 0 && i
                    <= first)),
        decreases last - first,
    {
        proof {
            vstd::arithmetic::div_mod::lemma_mod_add_multiples_vanish(first as int, factor as int);
            assert forall|i: int| first < i < first + factor implies #[trigger] (i % factor as int) != 0 by {
                if i % factor as int == 0 {
                    lemma_next_multiple(i, first as int, factor as int);
                }
            }
        }
        first += factor;
        slice[first] = false;
    }
    proof {
        assert forall|i: int| first < i < last implies #[trigger] (i % factor as int) != 0 by {
            if i % factor as int == 0 {
                lemma_next_multiple(i, first as int, factor as int);
            }
        }
    }
}

/// `p` is a prime number.
pub open spec fn is_prime(p: nat) -> bool {
    p >= 2 && forall|d: nat| 2 <= d < p ==> #[trigger] (p % d) != 0
}

/// The smallest divisor of `q` that is at least `d`.
pub open spec fn smallest_divisor_from(q: nat, d: nat) -> nat
    decreases q - d,
{
    if d >= q || q % d == 0 {
        d
    } else {
        smallest_divisor_from(q, d + 1)
    }
}

/// The odd multiples of `p` from `p * p` on are exactly the odd numbers at
/// least `p * p` that `p` divides: the ones at a distance from `p * p` that
/// is a multiple of `2 * p`.
proof fn lemma_odd_multiple(p: int, x: int)
    requires
        p >= 3,
        p % 2 == 1,
        x >= 0,
    ensures
        (p * p + 2 * x) % p == 0 <==> x % p == 0,
{
    vstd::arithmetic::div_mod::lemma_mod_multiples_vanish(p, 2 * x, p);
    assert(p * p + 2 * x == p * p + 2 * x);
    if x % p == 0 {
        vstd::arithmetic::div_mod::lemma_fundamental_div_mod(x, p);
        assert(2 * x == (2 * (x / p)) * p) by (nonlinear_arith)
            requires
                x == p * (x / p) + 0,
        ;
        vstd::arithmetic::div_mod::lemma_mod_multiples_basic(2 * (x / p), p);
    }
    if (2 * x) % p == 0 {
        vstd::arithmetic::div_mod::lemma_fundamental_div_mod(2 * x, p);
        let c = (2 * x) / p;
        vstd::arithmetic::div_mod::lemma_fundamental_div_mod(c, 2);
        let h = c / 2;
        if c % 2 == 1 {
            vstd::arithmetic::div_mod::lemma_fundamental_div_mod(p, 2);
            let r = p / 2;
            assert(p * c == 2 * (2 * r * h + r + h) + 1) by (nonlinear_arith)
                requires
                    c == 2 * h + 1,
                    p == 2 * r + 1,
            ;
        }
        assert(x == h * p) by (nonlinear_arith)
            requires
                2 * x == p * c,
                c == 2 * h + c % 2,
                c % 2 == 0,
        ;
        vstd::arithmetic::div_mod::lemma_mod_multiples_basic(h, p);
    }
}

/// If `e` divides `s` and `s` divides `q`, then `e` divides `q`.
pub proof fn lemma_divides_transitive(e: nat, s: nat, q: nat)
    requires
        e > 0,
        s > 0,
        s % e == 0,
        q % s == 0,
    ensures
        q % e == 0,
{
    vstd::arithmetic::div_mod::lemma_fundamental_div_mod(s as int, e as int);
    vstd::arithmetic::div_mod::lemma_fundamental_div_mod(q as int, s as int);
    let a = s as int / e as int;
    let b = q as int / s as int;
    assert(q == (a * b) * e) by (nonlinear_arith)
        requires
            s == e * a,
            q == s * b,
    ;
    vstd::arithmetic::div_mod::lemma_mod_multiples_basic(a * b, e as int);
}

proof fn lemma_smallest_divisor(q: nat, d: nat)
    requires
        2 <= d <= q,
        forall|e: nat| 2 <= e < d ==> #[trigger] (q % e) != 0,
    ensures
        d <= smallest_divisor_from(q, d) <= q,
        q % smallest_divisor_from(q, d) == 0,
        forall|e: nat| 2 <= e < smallest_divisor_from(q, d) ==> #[trigger] (q % e) != 0,
    decreases q - d,
{
    if d == q {
        vstd::arithmetic::div_mod::lemma_mod_self_0(q as int);
    } else if q % d != 0 {
        lemma_smallest_divisor(q, d + 1);
    }
}

/// An odd number of at least 3 that is not prime has an odd prime factor
/// whose square it is at least.
proof fn lemma_composite_factor(q: nat) -> (s: nat)
    requires
        q >= 3,
        q % 2 == 1,
        !is_prime(q),
    ensures
        s >= 3,
        s % 2 == 1,
        is_prime(s),
        s * s <= q,
        q % s == 0,
{
    lemma_smallest_divisor(q, 2);
    let s = smallest_divisor_from(q, 2);
    let d = choose|d: nat| 2 <= d < q && #[trigger] (q % d) == 0;
    assert(s <= d);
    assert(s != 2);
    if s % 2 == 0 {
        lemma_divides_transitive(2, s, q);
    }
    assert forall|e: nat| 2 <= e < s implies #[trigger] (s % e) != 0 by {
        if s % e == 0 {
            lemma_divides_transitive(e, s, q);
        }
    }
    vstd::arithmetic::div_mod::lemma_fundamental_div_mod(q as int, s as int);
    let c = q / s;
    assert(q == s * c);
    assert(c >= 2) by (nonlinear_arith)
        requires
            q == s * c,
            s <= d < q,
            s >= 2,
    ;
    assert(c * s == q) by (nonlinear_arith)
        requires
            q == s * c,
    ;
    vstd::arithmetic::div_mod::lemma_mod_multiples_basic(s as int, c as int);
    assert(q % c == 0) by (nonlinear_arith)
        requires
            q == s * c,
            ((s as int) * (c as int)) % (c as int) == 0,
    ;
    assert(c >= s) by {
        if c < s {
            assert(q % c != 0);
        }
    }
    assert(s * s <= q) by (nonlinear_arith)
        requires
            q == s * c,
            c >= s,
            s >= 0,
    ;
    s
}

/// Position `j` of the sieve (standing for `2 * j + 3`) has been crossed out
/// by one of the primes `2 * k + 3` with `k < i`: a multiple of it at least
/// its square.
pub open spec fn crossed_out(j: int, i: int) -> bool {
    exists|k: int|
        0 <= k < i && is_prime((2 * k + 3) as nat) && (2 * k + 3) * (2 * k + 3) <= 2 * j + 3 && #[trigger] ((2 * j + 3) % (2 * k + 3)) == 0
}

/// Once the squares of all primes below `2 * i + 3` have been passed, the
/// positions not crossed out are the primes.
proof fn lemma_crossed_out_is_composite(j: int, i: int)
    requires
        0 <= j,
        0 <= i,
        2 * j + 3 < (2 * i + 3) * (2 * i + 3),
    ensures
        crossed_out(j, i) <==> !is_prime((2 * j + 3) as nat),
{
    let q = (2 * j + 3) as nat;
    if !is_prime(q) {
        vstd::arithmetic::div_mod::lemma_mod_add_multiples_vanish((2 * j + 1) as int, 2);
        let s = lemma_composite_factor(q);
        let k = (s - 3) / 2;
        assert(s < 2 * i + 3) by (nonlinear_arith)
            requires
                s * s <= q,
                q < (2 * i + 3) * (2 * i + 3),
                s >= 0,
                i >= 0,
        ;
        assert(2 * k + 3 == s);
        assert((2 * j + 3) % (2 * k + 3) == 0);
    } else {
        if crossed_out(j, i) {
            let k = choose|k: int|
                0 <= k < i && is_prime((2 * k + 3) as nat) && (2 * k + 3) * (2 * k + 3) <= 2 * j + 3 && #[trigger] ((2 * j + 3) % (2 * k + 3)) == 0;
            let p = (2 * k + 3) as nat;
            assert(p < q) by (nonlinear_arith)
                requires
                    p * p <= q,
                    p >= 3,
            ;
            assert(q % p != 0);
        }
    }
}

/// Whether position `i` of the sieve, standing for `2 * i + 3`, is prime
/// once the smaller primes have crossed out their multiples.
proof fn lemma_candidate_is_prime(i: int)
    requires
        0 <= i,
    ensures
        crossed_out(i, i) <==> !is_prime((2 * i + 3) as nat),
{
    assert((2 * i + 3) < (2 * i + 3) * (2 * i + 3)) by (nonlinear_arith)
        requires
            i >= 0,
    ;
    lemma_crossed_out_is_composite(i, i);
}

/// Sets every element of `xs` to `value`.
fn fill(xs: &mut [bool], value: bool)
    ensures
        final(xs)@.len() == old(xs)@.len(),
        forall|i: int| 0 <= i < old(xs)@.len() ==> final(xs)@[i] == value,
{
    let n = xs.len();
    let mut i: usize = 0;
    while i < n
        invariant
            i <= n == xs@.len() == old(xs)@.len(),
            forall|k: int| 0 <= k < i ==> xs@[k] == value,
        decreases n - i,
    {
        xs[i] = value;
        i += 1;
    }
}

/// Crosses out, from position `index_square` (standing for the square of
/// `2 * i + 3`), the odd multiples of the prime `2 * i + 3`.
proof fn lemma_sieve_step(before: Seq<bool>, after: Seq<bool>, i: int, index_square: int, n: int)
    requires
        0 <= i,
        index_square == 2 * i * (i + 3) + 3,
        index_square < n == before.len() == after.len(),
        is_prime((2 * i + 3) as nat),
        forall|j: int| 0 <= j < n ==> before[j] == !crossed_out(j, i),
        forall|j: int|
            0 <= j < n ==> after[j] == (before[j] && !(j >= index_square && (j - index_square) % (2 * i + 3) == 0)),
    ensures
        forall|j: int| 0 <= j < n ==> after[j] == !crossed_out(j, i + 1),
{
    let p = 2 * i + 3;
    assert(p * p == 2 * index_square + 3) by (nonlinear_arith)
        requires
            p == 2 * i + 3,
            index_square == 2 * i * (i + 3) + 3,
    ;
    assert forall|j: int| 0 <= j < n implies after[j] == !crossed_out(j, i + 1) by {
        vstd::arithmetic::div_mod::lemma_mod_add_multiples_vanish(1, 2);
        if j >= index_square {
            lemma_odd_multiple(p, j - index_square);
            assert(p * p + 2 * (j - index_square) == 2 * j + 3);
        }
        if crossed_out(j, i + 1) && !crossed_out(j, i) {
            assert((2 * j + 3) % p == 0);
            assert(p * p <= 2 * j + 3);
        }
        if j >= index_square && (j - index_square) % p == 0 {
            assert((2 * j + 3) % (2 * i + 3) == 0);
        }
    }
}

proof fn lemma_no_new_crossings(i: int, n: int)
    requires
        0 <= i,
        !is_prime((2 * i + 3) as nat),
    ensures
        forall|j: int| 0 <= j < n ==> #[trigger] crossed_out(j, i + 1) == crossed_out(j, i),
{
    assert forall|j: int| 0 <= j < n implies crossed_out(j, i + 1) == crossed_out(j, i) by {
        if crossed_out(j, i + 1) {
            let k = choose|k: int|
                0 <= k < i + 1 && is_prime((2 * k + 3) as nat) && (2 * k + 3) * (2 * k + 3) <= 2 * j + 3 && #[trigger] ((2 * j + 3) % (2 * k + 3)) == 0;
            assert(k != i);
        }
    }
}

/// Clears the positions from `start` on whose distance from `start` is a
/// multiple of `factor`.
fn mark_sieve_from(slice: &mut [bool], start: usize, factor: usize)
    requires
        start < old(slice)@.len(),
        factor > 0,
    ensures
        final(slice)@.len() == old(slice)@.len(),
        forall|j: int|
            0 <= j < old(slice)@.len() ==> final(slice)@[j] == (old(slice)@[j] && !(j >= start && (j
                - start) % factor as int == 0)),
{
    let (_, tail) = slice.split_at_mut(start);
    mark_sieve(tail, factor);
}

/// While the square of `2 * i + 3` lies within a sequence of at most
/// `isize::MAX` positions, the next candidate and its square's position fit
/// in a `usize`.
proof fn lemma_step_fits(i: int, index_square: int, n: int)
    requires
        0 <= i,
        index_square == 2 * i * (i + 3) + 3,
        index_square < n <= isize::MAX,
    ensures
        2 * (i + 1) * ((i + 1) + 3) + 3 == index_square + 4 * i + 8,
        index_square + 4 * i + 8 <= usize::MAX,
        2 * (i + 1) + 3 <= index_square + 4 * i + 8,
{
    assert(2 * (i + 1) * ((i + 1) + 3) + 3 == index_square + 4 * i + 8) by (nonlinear_arith)
        requires
            index_square == 2 * i * (i + 3) + 3,
    ;
    assert(isize::MAX >= 0x7fff_ffff);
    if 4 * i + 8 > isize::MAX {
        assert(i * i >= 16 * i) by (nonlinear_arith)
            requires
                i >= 16,
        ;
        assert(2 * i * (i + 3) >= 2 * (i * i)) by (nonlinear_arith)
            requires
                i >= 0,
        ;
    }
}

/// Sieve of Eratosthenes over the odd numbers: afterwards position `i` is
/// true exactly when `2 * i + 3` is prime.
pub fn sift0(first: &mut [bool])
    requires
        old(first)@.len() <= isize::MAX,
    ensures
        final(first)@.len() == old(first)@.len(),
        forall|i: int| 0 <= i < old(first)@.len() ==> final(first)@[i] == is_prime((2 * i + 3) as nat),
{
    let n = first.len();
    fill(first, true);
    let mut i: usize = 0;
    let mut index_square: usize = 3;
    while index_square < n
        invariant
            n == first@.len() == old(first)@.len(),
            n <= isize::MAX,
            index_square == 2 * i * (i + 3) + 3,
            forall|j: int| 0 <= j < n ==> first@[j] == !crossed_out(j, i as int),
        decreases n - i,
    {
        proof {
            lemma_candidate_is_prime(i as int);
            assert(i < index_square) by (nonlinear_arith)
                requires
                    index_square == 2 * i * (i + 3) + 3,
            ;
        }
        if first[i] {
            let ghost before = first@;
            mark_sieve_from(first, index_square, i + i + 3);
            proof {
                lemma_sieve_step(before, first@, i as int, index_square as int, n as int);
            }
        } else {
            proof {
                lemma_no_new_crossings(i as int, n as int);
            }
        }
        proof {
            lemma_step_fits(i as int, index_square as int, n as int);
        }
        i += 1;
        index_square = 2 * i * (i + 3) + 3;
    }
    proof {
        assert forall|j: int| 0 <= j < n implies first@[j] == is_prime((2 * j + 3) as nat) by {
            assert(2 * j + 3 < (2 * i + 3) * (2 * i + 3)) by (nonlinear_arith)
                requires
                    index_square == 2 * i * (i + 3) + 3,
                    index_square >= n,
                    j < n,
            ;
            lemma_crossed_out_is_composite(j, i as int);
        }
    }
}

/// The sieve, keeping the current factor in a variable.
pub fn sift1(first: &mut [bool])
    requires
        old(first)@.len() <= isize::MAX,
    ensures
        final(first)@.len() == old(first)@.len(),
        forall|i: int| 0 <= i < old(first)@.len() ==> final(first)@[i] == is_prime((2 * i + 3) as nat),
{
    let n = first.len();
    fill(first, true);
    let mut i: usize = 0;
    let mut index_square: usize = 3;
    let mut factor: usize = 3;
    while index_square < n
        invariant
            n == first@.len() == old(first)@.len(),
            n <= isize::MAX,
            index_square == 2 * i * (i + 3) + 3,
            factor == 2 * i + 3,
            forall|j: int| 0 <= j < n ==> first@[j] == !crossed_out(j, i as int),
        decreases n - i,
    {
        proof {
            lemma_candidate_is_prime(i as int);
            assert(i < index_square) by (nonlinear_arith)
                requires
                    index_square == 2 * i * (i + 3) + 3,
            ;
        }
        if first[i] {
            let ghost before = first@;
            mark_sieve_from(first, index_square, factor);
            proof {
                lemma_sieve_step(before, first@, i as int, index_square as int, n as int);
            }
        } else {
            proof {
                lemma_no_new_crossings(i as int, n as int);
            }
        }
        proof {
            lemma_step_fits(i as int, index_square as int, n as int);
        }
        i += 1;
        factor = i + i + 3;
        index_square = 2 * i * (i + 3) + 3;
    }
    proof {
        assert forall|j: int| 0 <= j < n implies first@[j] == is_prime((2 * j + 3) as nat) by {
            assert(2 * j + 3 < (2 * i + 3) * (2 * i + 3)) by (nonlinear_arith)
                requires
                    index_square == 2 * i * (i + 3) + 3,
                    index_square >= n,
                    j < n,
            ;
            lemma_crossed_out_is_composite(j, i as int);
        }
    }
}

/// The sieve, stepping the factor and the position of its square by
/// additions alone.
pub fn sift(first: &mut [bool])
    requires
        old(first)@.len() <= isize::MAX,
    ensures
        final(first)@.len() == old(first)@.len(),
        forall|i: int| 0 <= i < old(first)@.len() ==> final(first)@[i] == is_prime((2 * i + 3) as nat),
{
    let n = first.len();
    fill(first, true);
    let mut i: usize = 0;
    let mut index_square: usize = 3;
    let mut factor: usize = 3;
    while index_square < n
        invariant
            n == first@.len() == old(first)@.len(),
            n <= isize::MAX,
            index_square == 2 * i * (i + 3) + 3,
            factor == 2 * i + 3,
            forall|j: int| 0 <= j < n ==> first@[j] == !crossed_out(j, i as int),
        decreases n - i,
    {
        proof {
            lemma_candidate_is_prime(i as int);
            assert(i < index_square) by (nonlinear_arith)
                requires
                    index_square == 2 * i * (i + 3) + 3,
            ;
        }
        if first[i] {
            let ghost before = first@;
            mark_sieve_from(first, index_square, factor);
            proof {
                lemma_sieve_step(before, first@, i as int, index_square as int, n as int);
            }
        } else {
            proof {
                lemma_no_new_crossings(i as int, n as int);
            }
        }
        proof {
            lemma_step_fits(i as int, index_square as int, n as int);
        }
        i += 1;
        index_square += factor;
        factor += 2;
        index_square += factor;
    }
    proof {
        assert forall|j: int| 0 <= j < n implies first@[j] == is_prime((2 * j + 3) as nat) by {
            assert(2 * j + 3 < (2 * i + 3) * (2 * i + 3)) by (nonlinear_arith)
                requires
                    index_square == 2 * i * (i + 3) + 3,
                    index_square >= n,
                    j < n,
            ;
            lemma_crossed_out_is_composite(j, i as int);
        }
    }
}

/// The greatest common measure of two segments, by subtracting the shorter
/// from the longer, recursively.
pub fn gcm(a: u32, b: u32) -> (r: u32)
    requires
        a > 0,
        b > 0,
    ensures
        r == gcd_of(a as nat, b as nat),
    decreases a + b,
{
    if a == b {
        proof {
            lemma_gcd_self(a as nat);
        }
        return a;
    }
    if b < a {
        proof {
            lemma_gcd_subtract(a as nat, b as nat);
        }
        return gcm(a - b, b);
    }
    proof {
        lemma_gcd_symmetric(a as nat, b as nat);
        lemma_gcd_subtract(b as nat, a as nat);
        lemma_gcd_symmetric(a as nat, (b - a) as nat);
    }
    gcm(a, b - a)
}

} // verus!
