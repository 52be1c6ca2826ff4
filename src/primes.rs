//! Primality by trial division.
use vstd::prelude::*;
use crate::ancient::{self, lemma_divides_transitive};

verus! {

fn divides(i: u64, n: u64) -> (r: bool)
    requires
        i > 0,
    ensures
        r == (n % i == 0),
{
    n % i == 0
}

/// The smallest divisor of `n` that is at least 2; `1` for `n == 1`.
fn smallest_divisor(n: u64) -> (r: u64)
    requires
        n > 0,
    ensures
        n == 1 ==> r == 1,
        n > 1 ==> 2 <= r <= n && n % r == 0 && forall|d: nat| 2 <= d < r ==> #[trigger] (n as nat % d) != 0,
{
    if n % 2 == 0 {
        return 2;
    }
    let mut i: u64 = 3;
    while n >= i
        invariant
            n % 2 == 1,
            i % 2 == 1,
            3 <= i,
            i <= n + 2,
            forall|d: nat| 2 <= d < i ==> #[trigger] (n as nat % d) != 0,
        decreases n + 2 - i,
    {
        if divides(i, n) {
            return i;
        }
        proof {
            assert forall|d: nat| 2 <= d < i + 2 implies #[trigger] (n as nat % d) != 0 by {
                if d == i + 1 && n as nat % d == 0 {
                    vstd::arithmetic::div_mod::lemma_fundamental_div_mod(d as int, 2);
                    lemma_divides_transitive(2, d, n as nat);
                }
            }
            assert(i != n) by {
                vstd::arithmetic::div_mod::lemma_mod_self_0(n as int);
            }
        }
        i += 2;
    }
    proof {
        if n > 1 {
            vstd::arithmetic::div_mod::lemma_mod_self_0(n as int);
            assert(n as nat % n as nat != 0);
        }
    }
    n
}

/// `1` when `n` is prime and `0` otherwise.
pub fn is_prime(n: &u64) -> (r: u64)
    ensures
        r == if ancient::is_prime(*n as nat) { 1u64 } else { 0u64 },
{
    if *n > 1 {
        let s = smallest_divisor(*n);
        if s == *n {
            return 1;
        }
        assert(!ancient::is_prime(*n as nat)) by {
            assert(*n as nat % s as nat == 0);
        }
    }
    0
}

} // verus!
