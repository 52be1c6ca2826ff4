//! Egyptian multiplication: `n * a` by halving `n` and doubling `a`.
use vstd::prelude::*;

verus! {

/// `x` is a value of `i32`.
pub open spec fn fits_i32(x: int) -> bool {
    i32::MIN <= x <= i32::MAX
}

/// A product with a smaller non-negative factor lies between zero and the
/// larger product, and so does a sum that adds it to a number.
proof fn lemma_partial_product(k: int, n: int, a: int, r: int)
    requires
        0 <= k <= n,
        fits_i32(n * a),
        fits_i32(r),
        fits_i32(r + n * a),
    ensures
        fits_i32(k * a),
        fits_i32(r + k * a),
{
    assert(fits_i32(k * a) && fits_i32(r + k * a)) by (nonlinear_arith)
        requires
            0 <= k <= n,
            fits_i32(n * a),
            fits_i32(r),
            fits_i32(r + n * a),
    ;
}

/// Halving `n` and doubling `a` keeps the product, up to the odd unit.
proof fn lemma_halve_double(n: int, a: int)
    requires
        n >= 0,
    ensures
        (n / 2) * (2 * a) + (n % 2) * a == n * a,
{
    assert((n / 2) * (2 * a) + (n % 2) * a == n * a) by (nonlinear_arith)
        requires
            n == 2 * (n / 2) + n % 2,
    ;
}

fn odd(n: i32) -> (r: bool)
    requires
        n >= 0,
    ensures
        r == (n % 2 == 1),
{
    n % 2 == 1
}

fn half(n: i32) -> (r: i32)
    requires
        n >= 0,
    ensures
        r == n / 2,
{
    n / 2
}

/// `n * a` by adding `a` to itself `n - 1` times.
pub fn multiply0(n: i32, a: i32) -> (r: i32)
    requires
        n >= 1,
        fits_i32(n * a),
    ensures
        r == n * a,
    decreases n,
{
    if n == 1 {
        return a;
    }
    proof {
        lemma_partial_product(n - 1, n as int, a as int, 0);
        assert((n - 1) * a + a == n * a) by (nonlinear_arith);
    }
    multiply0(n - 1, a) + a
}

/// `n * a` by halving `n` and doubling `a`, recursively.
pub fn multiply1(n: i32, a: i32) -> (r: i32)
    requires
        n >= 1,
        fits_i32(n * a),
    ensures
        r == n * a,
    decreases n,
{
    if n == 1 {
        return a;
    }
    proof {
        lemma_partial_product(2, n as int, a as int, 0);
        lemma_halve_double(n as int, a as int);
        lemma_partial_product(n - n % 2, n as int, a as int, 0);
        lemma_partial_product(n as int % 2, n as int, a as int, 0);
        assert((n / 2) * (2 * a) == (n - n % 2) * a) by (nonlinear_arith)
            requires
                (n / 2) * (2 * a) + (n % 2) * a == n * a,
        ;
    }
    let mut result = multiply1(half(n), a + a);
    if odd(n) {
        result += a;
    }
    result
}

/// `15 * a` by a chain of additions.
pub fn multiply_by_15(a: i32) -> (r: i32)
    requires
        fits_i32(15 * a),
    ensures
        r == 15 * a,
{
    let b = (a + a) + a;
    let c = b + b;
    (c + c) + b
}

/// The facts that carry a multiply-accumulate step: `r + n * a` is kept, and
/// everything computed on the way fits.
proof fn lemma_acc_step(r: int, n: int, a: int)
    requires
        n >= 2,
        fits_i32(r),
        fits_i32(n * a),
        fits_i32(r + n * a),
    ensures
        fits_i32(2 * a),
        fits_i32(r + a),
        fits_i32((n / 2) * (2 * a)),
        fits_i32(r + (n % 2) * a),
        (r + (n % 2) * a) + (n / 2) * (2 * a) == r + n * a,
        n / 2 >= 1,
{
    lemma_partial_product(2, n, a, r);
    lemma_partial_product(1, n, a, r);
    lemma_partial_product(n % 2, n, a, r);
    lemma_partial_product(n - n % 2, n, a, r);
    lemma_halve_double(n, a);
    assert((n / 2) * (2 * a) == (n - n % 2) * a) by (nonlinear_arith)
        requires
            (n / 2) * (2 * a) + (n % 2) * a == n * a,
    ;
}

/// `r + n * a`, recursively, with a separate call for each parity of `n`.
pub fn mult_acc0(r: i32, n: i32, a: i32) -> (res: i32)
    requires
        n >= 1,
        fits_i32(n * a),
        fits_i32(r + n * a),
    ensures
        res == r + n * a,
    decreases n,
{
    if n == 1 {
        return r + a;
    }
    proof {
        lemma_acc_step(r as int, n as int, a as int);
    }
    if odd(n) {
        mult_acc0(r + a, half(n), a + a)
    } else {
        mult_acc0(r, half(n), a + a)
    }
}

/// `r + n * a`, recursively, accumulating before the one recursive call.
pub fn mult_acc1(r: i32, n: i32, a: i32) -> (res: i32)
    requires
        n >= 1,
        fits_i32(n * a),
        fits_i32(r + n * a),
    ensures
        res == r + n * a,
    decreases n,
{
    if n == 1 {
        return r + a;
    }
    proof {
        lemma_acc_step(r as int, n as int, a as int);
    }
    let mut r = r;
    if odd(n) {
        r += a;
    }
    mult_acc1(r, half(n), a + a)
}

/// `r + n * a`, recursively, testing `n == 1` only when `n` is odd.
pub fn mult_acc2(r: i32, n: i32, a: i32) -> (res: i32)
    requires
        n >= 1,
        fits_i32(n * a),
        fits_i32(r + n * a),
    ensures
        res == r + n * a,
    decreases n,
{
    let mut r = r;
    if odd(n) {
        if n == 1 {
            return r + a;
        }
        proof {
            lemma_acc_step(r as int, n as int, a as int);
        }
        r += a;
    } else {
        proof {
            lemma_acc_step(r as int, n as int, a as int);
        }
    }
    mult_acc2(r, half(n), a + a)
}

/// `r + n * a`, tail-recursively, updating its arguments before the call.
pub fn mult_acc3(r: i32, n: i32, a: i32) -> (res: i32)
    requires
        n >= 1,
        fits_i32(n * a),
        fits_i32(r + n * a),
    ensures
        res == r + n * a,
    decreases n,
{
    let mut r = r;
    let mut n = n;
    let mut a = a;
    if odd(n) {
        if n == 1 {
            return r + a;
        }
        proof {
            lemma_acc_step(r as int, n as int, a as int);
        }
        r += a;
    } else {
        proof {
            lemma_acc_step(r as int, n as int, a as int);
        }
    }
    n = half(n);
    a += a;
    mult_acc3(r, n, a)
}

/// `r + n * a`, iteratively.
pub fn mult_acc4(r: i32, n: i32, a: i32) -> (res: i32)
    requires
        n >= 1,
        fits_i32(n * a),
        fits_i32(r + n * a),
    ensures
        res == r + n * a,
{
    let ghost target = r + n * a;
    let mut r = r;
    let mut n = n;
    let mut a = a;
    loop
        invariant_except_break
            n >= 1,
            fits_i32(n * a),
            fits_i32(r + n * a),
            r + n * a == target,
        ensures
            r == target,
        decreases n,
    {
        if odd(n) {
            if n == 1 {
                r += a;
                break;
            }
            proof {
                lemma_acc_step(r as int, n as int, a as int);
            }
            r += a;
        } else {
            proof {
                lemma_acc_step(r as int, n as int, a as int);
            }
        }
        n = half(n);
        a += a;
    }
    r
}

/// `n * a` through the iterative multiply-accumulate.
pub fn multiply2(n: i32, a: i32) -> (r: i32)
    requires
        n >= 1,
        fits_i32(n * a),
    ensures
        r == n * a,
{
    if n == 1 {
        return a;
    }
    proof {
        lemma_partial_product(n - 1, n as int, a as int, 0);
        assert(a + (n - 1) * a == n * a) by (nonlinear_arith);
    }
    mult_acc4(a, n - 1, a)
}

/// Halves `n` and doubles `a` while `n` is even, keeping their product.
proof fn lemma_even_step(n: int, a: int)
    requires
        n >= 1,
        n % 2 == 0,
        fits_i32(n * a),
    ensures
        fits_i32(2 * a),
        (n / 2) * (2 * a) == n * a,
        n / 2 >= 1,
{
    lemma_partial_product(2, n, a, 0);
    lemma_halve_double(n, a);
}

/// `n * a`, first removing the factors of two from `n`.
pub fn multiply3(n: i32, a: i32) -> (r: i32)
    requires
        n >= 1,
        fits_i32(n * a),
    ensures
        r == n * a,
{
    let ghost target = n * a;
    let mut n = n;
    let mut a = a;
    while !odd(n)
        invariant
            n >= 1,
            fits_i32(n * a),
            n * a == target,
        decreases n,
    {
        proof {
            lemma_even_step(n as int, a as int);
        }
        a += a;
        n = half(n);
    }
    if n == 1 {
        return a;
    }
    proof {
        lemma_partial_product(n - 1, n as int, a as int, 0);
        assert(a + (n - 1) * a == n * a) by (nonlinear_arith);
    }
    mult_acc4(a, n - 1, a)
}

/// `n * a`, first removing the factors of two from `n`, then starting the
/// accumulation one halving further along.
pub fn multiply4(n: i32, a: i32) -> (r: i32)
    requires
        n >= 1,
        fits_i32(n * a),
    ensures
        r == n * a,
{
    let ghost target = n * a;
    let mut n = n;
    let mut a = a;
    while !odd(n)
        invariant
            n >= 1,
            fits_i32(n * a),
            n * a == target,
        decreases n,
    {
        proof {
            lemma_even_step(n as int, a as int);
        }
        a += a;
        n = half(n);
    }
    if n == 1 {
        return a;
    }
    proof {
        lemma_partial_product(2, n as int, a as int, 0);
        lemma_partial_product(n - 1, n as int, a as int, 0);
        assert((n - 1) / 2 * (2 * a) == (n - 1) * a) by (nonlinear_arith)
            requires
                n % 2 == 1,
                n == 2 * (n / 2) + n % 2,
                (n - 1) / 2 == n / 2,
        ;
        assert(a + (n - 1) * a == n * a) by (nonlinear_arith);
    }
    mult_acc4(a, half(n - 1), a + a)
}

} // verus!
