//! Polynomial evaluation by Horner's rule.
use vstd::prelude::*;

verus! {

/// The value at `x` of the polynomial whose coefficients, highest degree
/// first, are the first `k` elements of `c`.
pub open spec fn horner(c: Seq<i64>, k: int, x: int) -> int
    decreases k,
{
    if k <= 0 {
        0
    } else {
        horner(c, k - 1, x) * x + c[k - 1]
    }
}

/// Every partial value of Horner's rule, and its product with `x`, is a
/// value of `i64`.
pub open spec fn horner_fits(c: Seq<i64>, x: int) -> bool {
    forall|k: int|
        1 <= k < c.len() ==> i64::MIN <= #[trigger] horner(c, k, x) * x <= i64::MAX && i64::MIN
            <= horner(c, k + 1, x) <= i64::MAX
}

/// The value at `x` of the polynomial with coefficients `c`, highest degree
/// first; zero for no coefficients.
pub fn polynomial_value(c: &[i64], x: i64) -> (r: i64)
    requires
        horner_fits(c@, x as int),
    ensures
        r == horner(c@, c@.len() as int, x as int),
{
    if c.len() == 0 {
        return 0;
    }
    let mut sum = c[0];
    let mut i: usize = 1;
    assert(horner(c@, 1, x as int) == c@[0]) by {
        assert(horner(c@, 0, x as int) == 0);
    }
    while i < c.len()
        invariant
            1 <= i <= c@.len(),
            horner_fits(c@, x as int),
            sum == horner(c@, i as int, x as int),
        decreases c@.len() - i,
    {
        assert(i64::MIN <= horner(c@, i as int, x as int) * x <= i64::MAX);
        sum *= x;
        sum += c[i];
        i += 1;
    }
    sum
}

} // verus!
