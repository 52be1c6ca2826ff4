//! Euclid's greatest common measure of two line segments, from repeated
//! subtraction to remainders computed by doubling and halving.
use vstd::prelude::*;
use vstd::arithmetic::div_mod::{
    lemma_fundamental_div_mod, lemma_fundamental_div_mod_converse, lemma_mod_sub_multiples_vanish,
    lemma_small_mod,
};
use crate::fibonacci::{fib, lemma_fib_monotonic};
use crate::gcd::{gcd_of, lemma_gcd_self, lemma_gcd_subtract, lemma_gcd_symmetric};

verus! {

/// The remainder of `a` by `b` taken in `(0, b]`: what is left of a segment
/// after removing copies of a shorter one while some longer part remains.
pub open spec fn segment_rem(a: nat, b: nat) -> nat {
    if a % b == 0 {
        b
    } else {
        a % b
    }
}

/// `c` is `b` doubled some number of times.
pub open spec fn is_doubling(c: nat, b: nat) -> bool
    decreases c,
{
    if c <= b {
        c == b
    } else {
        c % 2 == 0 && is_doubling(c / 2, b)
    }
}

proof fn lemma_gcd_segment_rem(a: nat, b: nat)
    requires
        b > 0,
    ensures
        gcd_of(segment_rem(a, b), b) == gcd_of(a, b),
{
    lemma_gcd_symmetric(segment_rem(a, b), b);
    if a % b != 0 {
        assert(gcd_of(b, a % b) == gcd_of(a, b));
    } else {
        lemma_gcd_self(b);
    }
}

/// The remainder in `(0, b]` is the one number of that interval congruent to
/// `a` modulo `b`.
proof fn lemma_segment_rem_unique(a: nat, b: nat, r: nat)
    requires
        0 < r <= b,
        r % b == a % b,
    ensures
        r == segment_rem(a, b),
{
    if r == b {
        vstd::arithmetic::div_mod::lemma_mod_self_0(b as int);
    } else {
        lemma_small_mod(r, b);
    }
}

proof fn lemma_segment_rem_bound(a: nat, b: nat)
    requires
        b > 0,
    ensures
        0 < segment_rem(a, b) <= b,
{
}

/// Subtracting a multiple of `b` keeps the remainder modulo `b`.
proof fn lemma_mod_sub_multiple(a: int, c: int, b: int)
    requires
        b > 0,
        c % b == 0,
    ensures
        (a - c) % b == a % b,
{
    lemma_fundamental_div_mod(c, b);
    let q = c / b;
    assert(a - c == b * (-q) + a) by (nonlinear_arith)
        requires
            c == b * q,
    ;
    vstd::arithmetic::div_mod::lemma_mod_multiples_vanish(-q, a, b);
}

proof fn lemma_doubling_facts(c: nat, b: nat)
    requires
        b > 0,
        is_doubling(c, b),
    ensures
        c >= b,
        c % b == 0,
        c != b ==> c % 2 == 0 && c / 2 >= b && is_doubling(c / 2, b),
    decreases c,
{
    if c == b {
        vstd::arithmetic::div_mod::lemma_mod_self_0(b as int);
    } else {
        lemma_doubling_facts(c / 2, b);
        lemma_fundamental_div_mod((c / 2) as int, b as int);
        let q = (c / 2) as int / b as int;
        assert(c == b * (2 * q)) by (nonlinear_arith)
            requires
                c / 2 == b * q,
                c % 2 == 0,
                c == 2 * (c / 2) + c % 2,
        ;
        vstd::arithmetic::div_mod::lemma_mod_multiples_basic(2 * q, b as int);
        assert(c % b == 0) by (nonlinear_arith)
            requires
                c == b * (2 * q),
                ((2 * q) * b) % (b as int) == 0,
        ;
    }
}

proof fn lemma_double_is_doubling(c: nat, b: nat)
    requires
        b > 0,
        is_doubling(c, b),
    ensures
        is_doubling(c + c, b),
{
    lemma_doubling_facts(c, b);
    assert((c + c) / 2 == c);
    assert((c + c) % 2 == 0);
}

fn half(n: u32) -> (r: u32)
    ensures
        r == n / 2,
{
    n / 2
}

/// The greatest common measure of two segments, by subtracting the shorter
/// from the longer until they are equal.
pub fn gcm0(a: u32, b: u32) -> (r: u32)
    requires
        a > 0,
        b > 0,
    ensures
        r == gcd_of(a as nat, b as nat),
{
    let ghost target = gcd_of(a as nat, b as nat);
    let mut a = a;
    let mut b = b;
    while a != b
        invariant
            a > 0,
            b > 0,
            gcd_of(a as nat, b as nat) == target,
        decreases a + b,
    {
        if b < a {
            proof {
                lemma_gcd_subtract(a as nat, b as nat);
            }
            a -= b;
        } else {
            proof {
                lemma_gcd_symmetric(a as nat, b as nat);
                lemma_gcd_subtract(b as nat, a as nat);
                lemma_gcd_symmetric(a as nat, (b - a) as nat);
            }
            b -= a;
        }
    }
    proof {
        lemma_gcd_self(a as nat);
    }
    a
}

/// The greatest common measure, removing the shorter segment from the longer
/// as often as it fits and then exchanging the roles.
pub fn gcm1(a: u32, b: u32) -> (r: u32)
    requires
        a > 0,
        b > 0,
    ensures
        r == gcd_of(a as nat, b as nat),
{
    let ghost target = gcd_of(a as nat, b as nat);
    let mut a = a;
    let mut b = b;
    while a != b
        invariant
            a > 0,
            b > 0,
            gcd_of(a as nat, b as nat) == target,
        decreases 2 * (a + b) + if a < b { 1int } else { 0int },
    {
        let ghost a_start = a;
        while b < a
            invariant
                a > 0,
                b > 0,
                gcd_of(a as nat, b as nat) == target,
                a <= a_start,
                b < a_start ==> a < a_start || b < a,
            decreases a,
        {
            proof {
                lemma_gcd_subtract(a as nat, b as nat);
            }
            a -= b;
        }
        proof {
            lemma_gcd_symmetric(a as nat, b as nat);
        }
        core::mem::swap(&mut a, &mut b);
    }
    proof {
        lemma_gcd_self(a as nat);
    }
    a
}

/// What is left of `a` after removing copies of `b` while `a` is longer.
fn segment_remainder(a: u32, b: u32) -> (r: u32)
    requires
        a > 0,
        b > 0,
    ensures
        r == segment_rem(a as nat, b as nat),
{
    let ghost a0 = a;
    let mut a = a;
    while b < a
        invariant
            a > 0,
            b > 0,
            a % b == a0 % b,
        decreases a,
    {
        proof {
            lemma_mod_sub_multiples_vanish(a as int, b as int);
        }
        a -= b;
    }
    proof {
        lemma_segment_rem_unique(a0 as nat, b as nat, a as nat);
    }
    a
}

/// The greatest common measure, through the segment remainder.
pub fn gcm(a: u32, b: u32) -> (r: u32)
    requires
        a > 0,
        b > 0,
    ensures
        r == gcd_of(a as nat, b as nat),
{
    let ghost target = gcd_of(a as nat, b as nat);
    let mut a = a;
    let mut b = b;
    while a != b
        invariant
            a > 0,
            b > 0,
            gcd_of(a as nat, b as nat) == target,
        decreases 2 * (a + b) + if a < b { 1int } else { 0int },
    {
        proof {
            lemma_gcd_segment_rem(a as nat, b as nat);
            lemma_gcd_symmetric(segment_rem(a as nat, b as nat), b as nat);
            lemma_segment_rem_bound(a as nat, b as nat);
            if a < b {
                lemma_small_mod(a as nat, b as nat);
            }
        }
        a = segment_remainder(a, b);
        core::mem::swap(&mut a, &mut b);
    }
    proof {
        lemma_gcd_self(a as nat);
    }
    a
}

/// The segment remainder, removing doublings of `b` first so that the work
/// grows with the logarithm of `a / b`.
fn fast_segment_remainder(a: u32, b: u32) -> (r: u32)
    requires
        a > 0,
        b > 0,
    ensures
        r == segment_rem(a as nat, b as nat),
    decreases a - b,
{
    if a <= b {
        proof {
            lemma_segment_rem_unique(a as nat, b as nat, a as nat);
        }
        return a;
    }
    if a - b <= b {
        proof {
            lemma_mod_sub_multiples_vanish(a as int, b as int);
            lemma_segment_rem_unique(a as nat, b as nat, (a - b) as nat);
        }
        return a - b;
    }
    let r = fast_segment_remainder(a, b + b);
    proof {
        let bb = (b + b) as int;
        lemma_fundamental_div_mod(a as int, bb);
        lemma_fundamental_div_mod(r as int, bb);
        let q = a as int / bb;
        if a as int % bb == 0 {
            vstd::arithmetic::div_mod::lemma_mod_self_0(bb);
        } else {
            lemma_small_mod(r as nat, bb as nat);
        }
        assert(r as int % bb == a as int % bb);
        lemma_fundamental_div_mod(r as int, b as int);
        lemma_fundamental_div_mod(a as int, b as int);
        assert((a as int - r as int) == b * (2 * q - 2 * (r as int / bb))) by (nonlinear_arith)
            requires
                a as int == bb * q + a as int % bb,
                r as int == bb * (r as int / bb) + r as int % bb,
                r as int % bb == a as int % bb,
                bb == 2 * b,
        ;
        vstd::arithmetic::div_mod::lemma_mod_multiples_basic(2 * q - 2 * (r as int / bb), b as int);
        assert((a as int - r as int) % (b as int) == 0) by (nonlinear_arith)
            requires
                (a as int - r as int) == b * (2 * q - 2 * (r as int / bb)),
                ((2 * q - 2 * (r as int / bb)) * b) % (b as int) == 0,
        ;
        lemma_mod_sub_multiple(a as int, a as int - r as int, b as int);
        if r > b {
            lemma_mod_sub_multiples_vanish(r as int, b as int);
            lemma_segment_rem_unique(a as nat, b as nat, (r - b) as nat);
        } else {
            lemma_segment_rem_unique(a as nat, b as nat, r as nat);
        }
    }
    if r <= b {
        return r;
    }
    r - b
}

/// The greatest common measure, through the fast segment remainder.
pub fn fast_segment_gcm(a: u32, b: u32) -> (r: u32)
    requires
        a > 0,
        b > 0,
    ensures
        r == gcd_of(a as nat, b as nat),
{
    let ghost target = gcd_of(a as nat, b as nat);
    let mut a = a;
    let mut b = b;
    while a != b
        invariant
            a > 0,
            b > 0,
            gcd_of(a as nat, b as nat) == target,
        decreases 2 * (a + b) + if a < b { 1int } else { 0int },
    {
        proof {
            lemma_gcd_segment_rem(a as nat, b as nat);
            lemma_gcd_symmetric(segment_rem(a as nat, b as nat), b as nat);
            lemma_segment_rem_bound(a as nat, b as nat);
            if a < b {
                lemma_small_mod(a as nat, b as nat);
            }
        }
        a = fast_segment_remainder(a, b);
        core::mem::swap(&mut a, &mut b);
    }
    proof {
        lemma_gcd_self(a as nat);
    }
    a
}

/// The remainder of `a` by `b`, doubling `b` while it fits so that the work
/// grows with the logarithm of `a / b`.
pub fn _fast_segment_remainder1(a: u32, b: u32) -> (r: u32)
    requires
        b > 0,
    ensures
        r == a % b,
    decreases a - b,
{
    if a < b {
        proof {
            lemma_small_mod(a as nat, b as nat);
        }
        return a;
    }
    if a - b < b {
        proof {
            lemma_fundamental_div_mod_converse(a as int, b as int, 1, a - b);
        }
        return a - b;
    }
    let r = _fast_segment_remainder1(a, b + b);
    proof {
        let bb = (b + b) as int;
        lemma_fundamental_div_mod(a as int, bb);
        let q = a as int / bb;
        if r < b {
            assert(a as int == (2 * q) * b + r) by (nonlinear_arith)
                requires
                    a as int == bb * q + r,
                    bb == 2 * b,
            ;
            lemma_fundamental_div_mod_converse(a as int, b as int, 2 * q, r as int);
        } else {
            assert(a as int == (2 * q + 1) * b + (r - b)) by (nonlinear_arith)
                requires
                    a as int == bb * q + r,
                    bb == 2 * b,
            ;
            lemma_fundamental_div_mod_converse(a as int, b as int, 2 * q + 1, r - b);
        }
    }
    if r < b {
        return r;
    }
    r - b
}

/// The largest doubling of `b` that is at most `a`.
fn largest_doubling(a: u32, b: u32) -> (r: u32)
    requires
        0 < b <= a,
    ensures
        is_doubling(r as nat, b as nat),
        r <= a,
        a - r < r,
{
    let ghost b0 = b;
    let mut b = b;
    while a - b >= b
        invariant
            0 < b0 <= b <= a,
            is_doubling(b as nat, b0 as nat),
        decreases a - b,
    {
        proof {
            lemma_double_is_doubling(b as nat, b0 as nat);
        }
        b += b;
    }
    b
}

/// The remainder of `a` by `b`: removes the largest doubling of `b` that
/// fits, then each smaller doubling down to `b` where it fits.
pub fn remainder(a: u32, b: u32) -> (r: u32)
    requires
        b > 0,
    ensures
        r == a % b,
{
    if a < b {
        proof {
            lemma_small_mod(a as nat, b as nat);
        }
        return a;
    }
    let ghost a0 = a;
    let mut a = a;
    let mut c = largest_doubling(a, b);
    proof {
        lemma_doubling_facts(c as nat, b as nat);
        lemma_mod_sub_multiple(a as int, c as int, b as int);
    }
    a -= c;
    while c != b
        invariant
            b > 0,
            is_doubling(c as nat, b as nat),
            a < c,
            a % b == a0 % b,
        decreases c,
    {
        proof {
            lemma_doubling_facts(c as nat, b as nat);
        }
        c = half(c);
        if c <= a {
            proof {
                lemma_doubling_facts(c as nat, b as nat);
                lemma_mod_sub_multiple(a as int, c as int, b as int);
            }
            a -= c;
        }
    }
    proof {
        lemma_small_mod(a as nat, b as nat);
    }
    a
}

/// Shared by the quotient functions: the quotient and remainder of `a` by
/// `b`, counting the doublings removed.
proof fn lemma_quotient_step(a0: int, n: int, c: int, a: int, c2: int)
    requires
        a0 == n * c + a,
        c == 2 * c2,
        c2 >= 1,
        0 <= a,
    ensures
        a0 == (2 * n) * c2 + a,
        a0 == (2 * n + 1) * c2 + (a - c2),
{
    assert(a0 == (2 * n) * c2 + a) by (nonlinear_arith)
        requires
            a0 == n * c + a,
            c == 2 * c2,
    ;
    assert(a0 == (2 * n + 1) * c2 + (a - c2)) by (nonlinear_arith)
        requires
            a0 == (2 * n) * c2 + a,
    ;
}

proof fn lemma_count_bounded(a0: int, n: int, c: int, a: int)
    requires
        a0 == n * c + a,
        c >= 1,
        n >= 0,
        a >= 0,
    ensures
        n <= a0,
{
    assert(n <= a0) by (nonlinear_arith)
        requires
            a0 == n * c + a,
            c >= 1,
            n >= 0,
            a >= 0,
    ;
}

/// The quotient of `a` by `b`, by removing doublings of `b`.
pub fn quotient(a: u32, b: u32) -> (r: u32)
    requires
        b > 0,
    ensures
        r == a / b,
{
    let (n, _) = quotient_remainder(a, b);
    n
}

/// The quotient and the remainder of `a` by `b`, by removing doublings of
/// `b` and counting them.
pub fn quotient_remainder(a: u32, b: u32) -> (r: (u32, u32))
    requires
        b > 0,
    ensures
        r == (a / b, a % b),
{
    if a < b {
        proof {
            lemma_fundamental_div_mod_converse(a as int, b as int, 0, a as int);
        }
        return (0, a);
    }
    let ghost a0 = a;
    let mut a = a;
    let mut c = largest_doubling(a, b);
    let mut n: u32 = 1;
    proof {
        lemma_doubling_facts(c as nat, b as nat);
    }
    a -= c;
    while c != b
        invariant
            b > 0,
            is_doubling(c as nat, b as nat),
            a < c,
            a0 == n * c + a,
            n >= 1,
        decreases c,
    {
        proof {
            lemma_doubling_facts(c as nat, b as nat);
        }
        c = half(c);
        proof {
            lemma_doubling_facts(c as nat, b as nat);
            lemma_quotient_step(a0 as int, n as int, (2 * c) as int, a as int, c as int);
            lemma_count_bounded(a0 as int, 2 * n, c as int, a as int);
        }
        n += n;
        if c <= a {
            proof {
                lemma_count_bounded(a0 as int, n + 1, c as int, (a - c) as int);
            }
            a -= c;
            n += 1;
        }
    }
    proof {
        lemma_fundamental_div_mod_converse(a0 as int, b as int, n as int, a as int);
    }
    (n, a)
}

/// Consecutive Fibonacci multiples of `b`: the next is the sum of the two
/// before it, and they grow strictly except between the first two.
proof fn lemma_fib_multiples(k: nat, b: nat)
    requires
        k >= 1,
        b > 0,
    ensures
        fib(k + 1) * b == fib(k) * b + fib((k - 1) as nat) * b,
        fib(k) * b >= b,
        fib((k - 1) as nat) * b <= fib(k) * b,
        k == 1 ==> fib(k) * b == b && fib(k + 1) * b == b,
        k >= 2 ==> fib(k) * b < fib(k + 1) * b,
{
    assert(fib(k + 1) == fib(k) + fib((k - 1) as nat));
    assert(fib(k + 1) * b == fib(k) * b + fib((k - 1) as nat) * b) by (nonlinear_arith)
        requires
            fib(k + 1) == fib(k) + fib((k - 1) as nat),
    ;
    lemma_fib_monotonic(1, k);
    lemma_fib_monotonic((k - 1) as nat, k);
    lemma_fib_monotonic(k, k + 1);
    assert(fib(1) == 1);
    assert(fib(2) == 1) by {
        assert(fib(0) == 0);
    }
    assert(fib(k) * b >= b) by (nonlinear_arith)
        requires
            fib(k) >= 1,
            b > 0,
    ;
    assert(fib((k - 1) as nat) * b <= fib(k) * b) by (nonlinear_arith)
        requires
            fib((k - 1) as nat) <= fib(k),
            b > 0,
    ;
    if k == 1 {
        assert(fib(k) * b == b && fib(k + 1) * b == b) by (nonlinear_arith)
            requires
                fib(k) == 1,
                fib(k + 1) == 1,
        ;
    }
    if k >= 2 {
        assert(fib(k) * b < fib(k + 1) * b) by (nonlinear_arith)
            requires
                fib(k) < fib(k + 1),
                b > 0,
        ;
    }
}

/// The remainder of `a` by `b`, removing Fibonacci multiples of `b`: up the
/// sequence past `a`, then down it. Going up may reach twice `a`, which must
/// fit in a `u32`.
pub fn remainder_fibonacci(a: u32, b: u32) -> (r: u32)
    requires
        b > 0,
        a < b || a <= u32::MAX / 2,
    ensures
        r == a % b,
{
    if a < b {
        proof {
            lemma_small_mod(a as nat, b as nat);
        }
        return a;
    }
    let ghost a0 = a;
    let ghost b0 = b;
    let mut a = a;
    let mut b = b;
    let mut c = b;
    let ghost mut k: nat = 1;
    proof {
        lemma_fib_multiples(1, b0 as nat);
    }
    loop
        invariant_except_break
            b0 <= c <= a,
            k >= 1,
            b == fib(k) * b0,
            c == fib(k + 1) * b0,
        invariant
            a == a0,
            b0 > 0,
            2 * a0 <= u32::MAX,
        ensures
            k >= 2,
            a < c,
            b == fib(k) * b0,
            c == fib(k + 1) * b0,
        decreases a - c,
    {
        proof {
            lemma_fib_multiples(k + 1, b0 as nat);
        }
        let tmp = c;
        c += b;
        b = tmp;
        proof {
            k = k + 1;
        }
        if a < c {
            break;
        }
    }
    loop
        invariant_except_break
            k >= 2,
            b == fib(k) * b0,
            c == fib(k + 1) * b0,
            a < c,
        invariant
            b0 > 0,
            a % b0 == a0 % b0,
        ensures
            a < b0,
        decreases k,
    {
        proof {
            lemma_fib_multiples(k, b0 as nat);
            lemma_fib_multiples((k - 1) as nat, b0 as nat);
        }
        if a >= b {
            proof {
                vstd::arithmetic::div_mod::lemma_mod_multiples_basic(fib(k) as int, b0 as int);
                lemma_mod_sub_multiple(a as int, b as int, b0 as int);
            }
            a -= b;
        }
        let tmp = c - b;
        c = b;
        b = tmp;
        proof {
            k = (k - 1) as nat;
        }
        if b >= c {
            break;
        }
    }
    proof {
        lemma_small_mod(a as nat, b0 as nat);
    }
    a
}

/// The greatest common divisor, by Euclid's algorithm with the remainder
/// computed by doublings.
pub fn gcm_remainder(a: u32, b: u32) -> (r: u32)
    ensures
        r == gcd_of(a as nat, b as nat),
{
    let ghost target = gcd_of(a as nat, b as nat);
    let mut a = a;
    let mut b = b;
    while b != 0
        invariant
            gcd_of(a as nat, b as nat) == target,
        decreases b,
    {
        a = remainder(a, b);
        core::mem::swap(&mut a, &mut b);
    }
    a
}

/// The greatest common divisor, by Euclid's algorithm.
pub fn gcd(a: u32, b: u32) -> (r: u32)
    ensures
        r == gcd_of(a as nat, b as nat),
{
    let ghost target = gcd_of(a as nat, b as nat);
    let mut a = a;
    let mut b = b;
    while b != 0
        invariant
            gcd_of(a as nat, b as nat) == target,
        decreases b,
    {
        a %= b;
        core::mem::swap(&mut a, &mut b);
    }
    a
}

} // verus!
