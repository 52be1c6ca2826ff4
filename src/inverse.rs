//! The extended Euclidean algorithm and the inverse modulo `n`.
use vstd::prelude::*;
use vstd::arithmetic::div_mod::{
    lemma_fundamental_div_mod, lemma_mod_equivalence, lemma_mod_multiples_vanish,
};
use crate::gcd::gcd_of;

verus! {

/// The absolute value of `x`.
pub open spec fn magnitude(x: int) -> int {
    if x < 0 {
        -x
    } else {
        x
    }
}

/// One step of the extended algorithm keeps the coefficients small: the
/// bound `|x0| * r1 + |x1| * r0 <= b` carries over to the next pair.
proof fn lemma_coefficients_step(x0: int, x1: int, r0: int, r1: int, q: int, b: int)
    requires
        r1 > 0,
        q >= 0,
        r0 - q * r1 >= 0,
        r0 > 0 || x1 == 0,
        magnitude(x0) * r1 + magnitude(x1) * r0 <= b,
    ensures
        magnitude(x1) * (r0 - q * r1) + magnitude(x0 - q * x1) * r1 <= b,
        magnitude(q * x1) <= b,
        magnitude(x0 - q * x1) <= b,
        magnitude(x1) <= b,
{
    assert(magnitude(q * x1) == q * magnitude(x1)) by (nonlinear_arith)
        requires
            q >= 0,
    ;
    assert(magnitude(x0 - q * x1) <= magnitude(x0) + q * magnitude(x1));
    assert(magnitude(x1) * (r0 - q * r1) + (magnitude(x0) + q * magnitude(x1)) * r1
        == magnitude(x1) * r0 + magnitude(x0) * r1) by (nonlinear_arith);
    assert(magnitude(x0 - q * x1) * r1 <= (magnitude(x0) + q * magnitude(x1)) * r1) by (nonlinear_arith)
        requires
            magnitude(x0 - q * x1) <= magnitude(x0) + q * magnitude(x1),
            r1 > 0,
    ;
    assert(magnitude(x1) * (r0 - q * r1) >= 0) by (nonlinear_arith)
        requires
            r0 - q * r1 >= 0,
    ;
    assert(q * magnitude(x1) * r1 <= magnitude(x1) * r0) by (nonlinear_arith)
        requires
            r0 - q * r1 >= 0,
    ;
    assert(q * magnitude(x1) <= q * magnitude(x1) * r1) by (nonlinear_arith)
        requires
            r1 >= 1,
            q >= 0,
    ;
    assert(magnitude(x1) <= magnitude(x1) * r0 || r0 == 0) by (nonlinear_arith)
        requires
            r0 >= 0,
    ;
    assert(magnitude(x0 - q * x1) <= magnitude(x0 - q * x1) * r1) by (nonlinear_arith)
        requires
            r1 >= 1,
    ;
    assert(magnitude(x1) * r0 >= 0 && magnitude(x0) * r1 >= 0) by (nonlinear_arith)
        requires
            r0 >= 0,
            r1 >= 0,
    ;
}

/// Runs Euclid's algorithm on `a` and `b` and returns `(x, g)`: `g` is the
/// greatest common divisor and `x * a` is congruent to `g` modulo `b`.
pub fn extended_gcd(a: i64, b: i64) -> (r: (i64, i64))
    requires
        a >= 0,
        b >= 0,
    ensures
        r.1 == gcd_of(a as nat, b as nat),
        b > 0 ==> (r.0 * a - r.1) % (b as int) == 0,
        b > 0 ==> magnitude(r.0 as int) <= b,
{
    let ghost a0 = a as int;
    let ghost b0 = b as int;
    let mut a = a;
    let mut b = b;
    let mut x0: i64 = 1;
    let mut x1: i64 = 0;
    let ghost mut k0: int = 0;
    let ghost mut k1: int = -1;
    assert(magnitude(x0 as int) * b + magnitude(x1 as int) * a == b0) by (nonlinear_arith)
        requires
            x0 == 1,
            x1 == 0,
            b == b0,
    ;
    while b != 0
        invariant
            a >= 0,
            b >= 0,
            0 <= b0 <= i64::MAX,
            a > 0 || x1 == 0,
            gcd_of(a as nat, b as nat) == gcd_of(a0 as nat, b0 as nat),
            x0 * a0 - a == k0 * b0,
            x1 * a0 - b == k1 * b0,
            magnitude(x0 as int) * b + magnitude(x1 as int) * a <= b0 || b0 == 0,
            b0 > 0 ==> magnitude(x0 as int) <= b0,
            b0 == 0 ==> b == 0,
        decreases b,
    {
        let q = a / b;
        let rem = a % b;
        proof {
            lemma_fundamental_div_mod(a as int, b as int);
            lemma_coefficients_step(x0 as int, x1 as int, a as int, b as int, q as int, b0);
        }
        let x2 = x0 - q * x1;
        proof {
            assert(x2 * a0 - rem == (k0 - q * k1) * b0) by (nonlinear_arith)
                requires
                    x0 * a0 - a == k0 * b0,
                    x1 * a0 - b == k1 * b0,
                    x2 == x0 - q * x1,
                    rem == a - q * b,
            ;
            let k2 = k0 - q * k1;
            k0 = k1;
            k1 = k2;
        }
        x0 = x1;
        x1 = x2;
        a = b;
        b = rem;
    }
    proof {
        if b0 > 0 {
            assert(x0 * a0 - a == b0 * k0) by (nonlinear_arith)
                requires
                    x0 * a0 - a == k0 * b0,
            ;
            lemma_mod_multiples_vanish(k0, 0, b0);
        }
    }
    (x0, a)
}

/// The inverse of `a` modulo `n`: a number in `[0, n]` whose product with
/// `a` is 1 modulo `n`; `0` when `a` and `n` have a common divisor other
/// than 1, and so no inverse.
pub fn multiplicative_inverse(a: i64, n: i64) -> (r: i64)
    requires
        a >= 0,
        n > 0,
    ensures
        gcd_of(a as nat, n as nat) != 1 ==> r == 0,
        gcd_of(a as nat, n as nat) == 1 ==> 0 <= r <= n && (r * a) % (n as int) == 1int % (n as int),
{
    let p = extended_gcd(a, n);
    if p.1 != 1 {
        return 0;
    }
    proof {
        lemma_mod_equivalence(p.0 * a, 1, n as int);
    }
    if p.0 < 0 {
        proof {
            assert((p.0 + n) * a == n * a + p.0 * a) by (nonlinear_arith);
            lemma_mod_multiples_vanish(a as int, p.0 * a, n as int);
        }
        return p.0 + n;
    }
    p.0
}

} // verus!
