//! The Fibonacci numbers.
use vstd::prelude::*;

verus! {

/// The `n`-th Fibonacci number: 0, 1, 1, 2, 3, 5, ...
pub open spec fn fib(n: nat) -> nat
    decreases n,
{
    if n == 0 {
        0
    } else if n == 1 {
        1
    } else {
        fib((n - 1) as nat) + fib((n - 2) as nat)
    }
}

/// The Fibonacci numbers never decrease, and increase strictly from the
/// second on.
pub proof fn lemma_fib_monotonic(i: nat, j: nat)
    requires
        i <= j,
    ensures
        fib(i) <= fib(j),
        2 <= i < j ==> fib(i) < fib(j),
    decreases j,
{
    if i < j {
        lemma_fib_monotonic(i, (j - 1) as nat);
        if j >= 2 {
            assert(fib(j) == fib((j - 1) as nat) + fib((j - 2) as nat));
            if j >= 3 {
                lemma_fib_monotonic(1, (j - 2) as nat);
                assert(fib(1) == 1);
            }
        }
    }
}

/// The `n`-th Fibonacci number, by the recurrence.
pub fn fib0(n: i32) -> (r: i32)
    requires
        0 <= n,
        fib(n as nat) <= i32::MAX,
    ensures
        r == fib(n as nat),
    decreases n,
{
    if n == 0 {
        return 0;
    }
    if n == 1 {
        return 1;
    }
    proof {
        lemma_fib_monotonic((n - 1) as nat, n as nat);
        lemma_fib_monotonic((n - 2) as nat, n as nat);
    }
    fib0(n - 1) + fib0(n - 2)
}

/// The `n`-th Fibonacci number, carrying two consecutive ones forward.
pub fn fibonacci_iterative(n: i32) -> (r: i32)
    requires
        0 <= n,
        fib(n as nat) <= i32::MAX,
    ensures
        r == fib(n as nat),
{
    if n == 0 {
        return 0;
    }
    let mut v: (i32, i32) = (0, 1);
    for i in 1..n
        invariant
            1 <= n,
            fib(n as nat) <= i32::MAX,
            v.0 == fib((i - 1) as nat),
            v.1 == fib(i as nat),
    {
        proof {
            lemma_fib_monotonic((i + 1) as nat, n as nat);
        }
        v = (v.1, v.0 + v.1);
    }
    v.1
}

} // verus!
