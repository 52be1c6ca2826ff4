//! Greatest common divisor: its definition, the facts the cycle rotation
//! rests on, and Euclid's algorithm.
use vstd::prelude::*;
use vstd::arithmetic::div_mod::{
    lemma_fundamental_div_mod, lemma_mod_multiples_basic, lemma_mod_self_0,
};

verus! {

/// The greatest common divisor, by Euclid's recursion.
pub open spec fn gcd_of(a: nat, b: nat) -> nat
    decreases b,
{
    if b == 0 {
        a
    } else {
        gcd_of(b, a % b)
    }
}

/// Coefficients `(x, y)` with `x * a + y * b == gcd_of(a, b)`.
pub open spec fn bezout(a: nat, b: nat) -> (int, int)
    decreases b,
{
    if b == 0 {
        (1, 0)
    } else {
        let (x, y) = bezout(b, a % b);
        (y, x - y * (a / b) as int)
    }
}

/// The greatest common divisor is a combination of its arguments.
pub proof fn lemma_bezout(a: nat, b: nat)
    ensures
        bezout(a, b).0 * a + bezout(a, b).1 * b == gcd_of(a, b),
    decreases b,
{
    if b != 0 {
        lemma_bezout(b, a % b);
        let (x, y) = bezout(b, a % b);
        let q = (a / b) as int;
        let r = (a % b) as int;
        lemma_fundamental_div_mod(a as int, b as int);
        assert(a == b * q + r);
        assert(x * b + y * r == gcd_of(a, b));
        assert(y * a + (x - y * q) * b == x * b + y * r) by (nonlinear_arith)
            requires
                a == b * q + r,
        ;
    }
}

/// The greatest common divisor of two numbers, not both zero, is positive
/// and divides both.
pub proof fn lemma_gcd_divides(a: nat, b: nat)
    requires
        a + b > 0,
    ensures
        gcd_of(a, b) > 0,
        a % gcd_of(a, b) == 0,
        b % gcd_of(a, b) == 0,
    decreases b,
{
    let g = gcd_of(a, b);
    if b == 0 {
        lemma_mod_self_0(a as int);
    } else {
        lemma_gcd_divides(b, a % b);
        let q = (a / b) as int;
        let r = (a % b) as int;
        lemma_fundamental_div_mod(a as int, b as int);
        lemma_fundamental_div_mod(b as int, g as int);
        lemma_fundamental_div_mod(r, g as int);
        let s = b as int / g as int;
        let t = r / g as int;
        assert(b == g * s);
        assert(r == g * t);
        assert(a == (s * q + t) * g) by (nonlinear_arith)
            requires
                a == b * q + r,
                b == g * s,
                r == g * t,
        ;
        lemma_mod_multiples_basic(s * q + t, g as int);
    }
}

/// Replacing the larger of two numbers by its remainder modulo the smaller
/// keeps their greatest common divisor; so does exchanging them.
pub proof fn lemma_gcd_symmetric(a: nat, b: nat)
    ensures
        gcd_of(a, b) == gcd_of(b, a),
{
    if a < b {
        vstd::arithmetic::div_mod::lemma_small_mod(a, b);
    } else if b < a {
        vstd::arithmetic::div_mod::lemma_small_mod(b, a);
    }
}

/// Subtracting the smaller of two positive numbers from the larger keeps
/// their greatest common divisor.
pub proof fn lemma_gcd_subtract(a: nat, b: nat)
    requires
        0 < b <= a,
    ensures
        gcd_of((a - b) as nat, b) == gcd_of(a, b),
{
    vstd::arithmetic::div_mod::lemma_mod_sub_multiples_vanish(a as int, b as int);
    assert(((a - b) as nat) % b == a % b);
}

/// A number is its own greatest common divisor.
pub proof fn lemma_gcd_self(a: nat)
    ensures
        gcd_of(a, a) == a,
{
    if a > 0 {
        vstd::arithmetic::div_mod::lemma_mod_self_0(a as int);
        assert(gcd_of(a, 0) == a);
    }
}

/// Every common divisor of two numbers divides their greatest common
/// divisor.
pub proof fn lemma_common_divisor(a: nat, b: nat, c: nat)
    requires
        c > 0,
        a % c == 0,
        b % c == 0,
    ensures
        gcd_of(a, b) % c == 0,
{
    lemma_bezout(a, b);
    let (x, y) = bezout(a, b);
    lemma_fundamental_div_mod(a as int, c as int);
    lemma_fundamental_div_mod(b as int, c as int);
    let p = a as int / c as int;
    let q = b as int / c as int;
    assert(gcd_of(a, b) == (x * p + y * q) * c) by (nonlinear_arith)
        requires
            x * a + y * b == gcd_of(a, b),
            a == c * p,
            b == c * q,
    ;
    lemma_mod_multiples_basic(x * p + y * q, c as int);
}

/// A positive number that divides `a` and `b` and that every common divisor
/// divides is their greatest common divisor.
pub proof fn lemma_gcd_unique(a: nat, b: nat, g: nat)
    requires
        g > 0,
        a % g == 0,
        b % g == 0,
        forall|c: nat| c > 0 && #[trigger] (a % c) == 0 && b % c == 0 ==> g % c == 0,
    ensures
        g == gcd_of(a, b),
{
    lemma_common_divisor(a, b, g);
    let d = gcd_of(a, b);
    if a + b > 0 {
        lemma_gcd_divides(a, b);
        assert(g % d == 0);
        lemma_fundamental_div_mod(g as int, d as int);
        lemma_fundamental_div_mod(d as int, g as int);
        let k = g as int / d as int;
        let j = d as int / g as int;
        assert(g == d) by (nonlinear_arith)
            requires
                g == d * k,
                d == g * j,
                g > 0,
                d > 0,
        ;
    } else {
        assert(d == 0);
        assert(0nat % (g + 1) == 0);
        assert(g % (g + 1) == 0);
        vstd::arithmetic::div_mod::lemma_small_mod(g, g + 1);
    }
}

/// Euclid's algorithm.
pub fn gcd(a: usize, b: usize) -> (r: usize)
    ensures
        r == gcd_of(a as nat, b as nat),
{
    let ghost target = gcd_of(a as nat, b as nat);
    let mut a = a;
    let mut b = b;
    while b != 0
        invariant
            gcd_of(a as nat, b as nat) == target,
        decreases b,
    {
        a = a % b;
        core::mem::swap(&mut a, &mut b);
    }
    a
}

} // verus!
