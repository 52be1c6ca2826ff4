//! Stein's binary greatest common divisor: shifts and subtractions only.
use vstd::prelude::*;
use vstd::arithmetic::div_mod::{lemma_fundamental_div_mod, lemma_mod_multiples_basic};
use vstd::arithmetic::power2::{lemma_pow2_pos, lemma_pow2_unfold, pow2};
use crate::ancient::lemma_divides_transitive;
use crate::gcd::{
    bezout, gcd_of, lemma_bezout, lemma_common_divisor, lemma_gcd_divides, lemma_gcd_self,
    lemma_gcd_subtract, lemma_gcd_symmetric, lemma_gcd_unique,
};

verus! {

/// Doubling both arguments doubles the greatest common divisor.
proof fn lemma_gcd_double(x: nat, y: nat)
    requires
        x + y > 0,
    ensures
        gcd_of(2 * x, 2 * y) == 2 * gcd_of(x, y),
{
    let g = gcd_of(x, y);
    lemma_gcd_divides(x, y);
    lemma_bezout(x, y);
    let (bx, by) = bezout(x, y);
    lemma_fundamental_div_mod(x as int, g as int);
    lemma_fundamental_div_mod(y as int, g as int);
    assert(2 * x == (x as int / g as int) * (2 * g)) by (nonlinear_arith)
        requires
            x == g * (x as int / g as int),
    ;
    assert(2 * y == (y as int / g as int) * (2 * g)) by (nonlinear_arith)
        requires
            y == g * (y as int / g as int),
    ;
    lemma_mod_multiples_basic(x as int / g as int, 2 * g as int);
    lemma_mod_multiples_basic(y as int / g as int, 2 * g as int);
    assert forall|c: nat| c > 0 && #[trigger] ((2 * x) % c) == 0 && (2 * y) % c == 0 implies (2 * g) % c == 0 by {
        lemma_fundamental_div_mod((2 * x) as int, c as int);
        lemma_fundamental_div_mod((2 * y) as int, c as int);
        let p = (2 * x) as int / c as int;
        let q = (2 * y) as int / c as int;
        assert(2 * g == (bx * p + by * q) * c) by (nonlinear_arith)
            requires
                bx * x + by * y == g,
                2 * x == c * p,
                2 * y == c * q,
        ;
        lemma_mod_multiples_basic(bx * p + by * q, c as int);
    }
    lemma_gcd_unique(2 * x, 2 * y, 2 * g);
}

/// Halving an even argument keeps the greatest common divisor with an odd
/// number.
proof fn lemma_gcd_halve(x: nat, y: nat)
    requires
        y % 2 == 1,
    ensures
        gcd_of(2 * x, y) == gcd_of(x, y),
{
    let g = gcd_of(x, y);
    lemma_gcd_divides(x, y);
    lemma_fundamental_div_mod(x as int, g as int);
    assert(2 * x == (2 * (x as int / g as int)) * g) by (nonlinear_arith)
        requires
            x == g * (x as int / g as int),
    ;
    lemma_mod_multiples_basic(2 * (x as int / g as int), g as int);
    assert forall|c: nat| c > 0 && #[trigger] ((2 * x) % c) == 0 && y % c == 0 implies g % c == 0 by {
        if c % 2 == 0 {
            lemma_divides_transitive(2, c, y);
        }
        lemma_fundamental_div_mod((2 * x) as int, c as int);
        let p = (2 * x) as int / c as int;
        lemma_fundamental_div_mod(p, 2);
        lemma_fundamental_div_mod(c as int, 2);
        if p % 2 == 1 {
            assert(c * p == 2 * (2 * (c as int / 2) * (p / 2) + c as int / 2 + p / 2) + 1) by (nonlinear_arith)
                requires
                    c == 2 * (c as int / 2) + 1,
                    p == 2 * (p / 2) + 1,
            ;
        }
        assert(x == (p / 2) * c) by (nonlinear_arith)
            requires
                2 * x == c * p,
                p == 2 * (p / 2) + p % 2,
                p % 2 == 0,
        ;
        lemma_mod_multiples_basic(p / 2, c as int);
        lemma_common_divisor(x, y, c);
    }
    lemma_gcd_unique(2 * x, y, g);
}

/// The greatest common divisor of `mo * 2^dm` and `no * 2^dn`, with `mo` and
/// `no` odd, is that of `mo` and `no` times the smaller power of two.
proof fn lemma_gcd_pow2(mo: nat, dm: nat, no: nat, dn: nat)
    requires
        mo % 2 == 1,
        no % 2 == 1,
    ensures
        gcd_of(mo * pow2(dm), no * pow2(dn)) == pow2(if dm <= dn { dm } else { dn }) * gcd_of(mo, no),
    decreases dm + dn, if dm == 0 { 1nat } else { 0nat },
{
    lemma_pow2_pos(dm);
    lemma_pow2_pos(dn);
    if dm == 0 && dn == 0 {
        assert(pow2(0) == 1) by {
            vstd::arithmetic::power2::lemma2_to64();
        }
        assert(mo * pow2(dm) == mo && no * pow2(dn) == no) by (nonlinear_arith)
            requires
                pow2(dm) == 1,
                pow2(dn) == 1,
        ;
        assert(pow2(0) * gcd_of(mo, no) == gcd_of(mo, no)) by (nonlinear_arith)
            requires
                pow2(0) == 1,
        ;
    } else if dm > 0 && dn > 0 {
        lemma_pow2_unfold(dm);
        lemma_pow2_unfold(dn);
        let a = mo * pow2((dm - 1) as nat);
        let b = no * pow2((dn - 1) as nat);
        assert(mo * pow2(dm) == 2 * a) by (nonlinear_arith)
            requires
                pow2(dm) == 2 * pow2((dm - 1) as nat),
                a == mo * pow2((dm - 1) as nat),
        ;
        assert(no * pow2(dn) == 2 * b) by (nonlinear_arith)
            requires
                pow2(dn) == 2 * pow2((dn - 1) as nat),
                b == no * pow2((dn - 1) as nat),
        ;
        lemma_pow2_pos((dm - 1) as nat);
        assert(a > 0) by (nonlinear_arith)
            requires
                a == mo * pow2((dm - 1) as nat),
                mo > 0,
                pow2((dm - 1) as nat) > 0,
        ;
        lemma_gcd_double(a, b);
        lemma_gcd_pow2(mo, (dm - 1) as nat, no, (dn - 1) as nat);
        let k = if dm <= dn { dm } else { dn };
        lemma_pow2_unfold(k);
        assert(pow2(k) * gcd_of(mo, no) == 2 * (pow2((k - 1) as nat) * gcd_of(mo, no))) by (nonlinear_arith)
            requires
                pow2(k) == 2 * pow2((k - 1) as nat),
        ;
    } else if dm > 0 {
        lemma_pow2_unfold(dm);
        let a = mo * pow2((dm - 1) as nat);
        assert(mo * pow2(dm) == 2 * a) by (nonlinear_arith)
            requires
                pow2(dm) == 2 * pow2((dm - 1) as nat),
                a == mo * pow2((dm - 1) as nat),
        ;
        assert(pow2(0) == 1) by {
            vstd::arithmetic::power2::lemma2_to64();
        }
        assert(pow2(dn) == 1);
        assert(no * pow2(dn) == no) by (nonlinear_arith)
            requires
                pow2(dn) == 1,
        ;
        lemma_gcd_halve(a, no);
        lemma_gcd_pow2(mo, (dm - 1) as nat, no, dn);
    } else {
        lemma_gcd_symmetric(mo * pow2(dm), no * pow2(dn));
        lemma_gcd_symmetric(mo, no);
        lemma_gcd_pow2(no, dn, mo, dm);
    }
}

fn even(n: u64) -> (r: bool)
    ensures
        r == (n % 2 == 0),
{
    n % 2 == 0
}

/// Removes the factors of two from a positive `m`, counting them.
fn strip_twos(m: u64) -> (r: (u64, u32))
    requires
        m > 0,
    ensures
        r.0 > 0,
        r.0 % 2 == 1,
        m == r.0 * pow2(r.1 as nat),
{
    let mut m = m;
    let mut d: u32 = 0;
    let ghost m0 = m;
    proof {
        assert(pow2(0) == 1) by {
            vstd::arithmetic::power2::lemma2_to64();
        }
    }
    while even(m)
        invariant
            m > 0,
            m0 == m * pow2(d as nat),
            m0 <= u64::MAX,
            d < 64,
        decreases m,
    {
        proof {
            lemma_pow2_unfold((d + 1) as nat);
            lemma_pow2_pos(d as nat);
            assert(m0 == (m / 2) * pow2((d + 1) as nat)) by (nonlinear_arith)
                requires
                    m0 == m * pow2(d as nat),
                    m % 2 == 0,
                    m == 2 * (m / 2) + m % 2,
                    pow2((d + 1) as nat) == 2 * pow2(d as nat),
            ;
            if d + 1 >= 64 {
                vstd::arithmetic::power2::lemma2_to64();
                assert(d + 1 == 64);
                assert(false) by (nonlinear_arith)
                    requires
                        m0 == (m / 2) * pow2((d + 1) as nat),
                        m / 2 >= 1,
                        pow2((d + 1) as nat) == 0x1_0000_0000_0000_0000,
                        m0 <= u64::MAX,
                ;
            }
        }
        m /= 2;
        d += 1;
    }
    (m, d)
}

/// The absolute value of `x`.
pub open spec fn abs_of(x: i64) -> nat {
    if x < 0 {
        (-x) as nat
    } else {
        x as nat
    }
}

/// The greatest common divisor of `|m|` and `|n|`, by Stein's binary
/// algorithm.
pub fn stein_gcd(m: i64, n: i64) -> (r: i64)
    requires
        m != i64::MIN,
        n != i64::MIN,
    ensures
        r == gcd_of(abs_of(m), abs_of(n)),
{
    let ghost target = gcd_of(abs_of(m), abs_of(n));
    let mut m = m;
    let mut n = n;
    if m < 0 {
        m = -m;
    }
    if n < 0 {
        n = -n;
    }
    if m == 0 {
        proof {
            lemma_gcd_symmetric(0, n as nat);
        }
        return n;
    }
    if n == 0 {
        return m;
    }
    let ghost ma = m as nat;
    let ghost na = n as nat;
    assert(gcd_of(ma, na) == target);
    let mut m = m as u64;
    let mut n = n as u64;
    let (m1, d_m) = strip_twos(m);
    let (n1, d_n) = strip_twos(n);
    m = m1;
    n = n1;
    let ghost odd_gcd = gcd_of(m as nat, n as nat);
    let ghost k = if d_m <= d_n { d_m as nat } else { d_n as nat };
    proof {
        lemma_gcd_pow2(m as nat, d_m as nat, n as nat, d_n as nat);
    }
    while m != n
        invariant
            m > 0,
            n > 0,
            m % 2 == 1,
            n % 2 == 1,
            gcd_of(m as nat, n as nat) == odd_gcd,
        decreases m + n,
    {
        if n > m {
            proof {
                lemma_gcd_symmetric(m as nat, n as nat);
            }
            core::mem::swap(&mut n, &mut m);
        }
        proof {
            lemma_gcd_subtract(m as nat, n as nat);
        }
        let ghost total = m + n;
        m = m - n;
        loop
            invariant_except_break
                m % 2 == 0,
            invariant
                m + n < total,
                m > 0,
                n % 2 == 1,
                gcd_of(m as nat, n as nat) == odd_gcd,
            ensures
                m % 2 == 1,
            decreases m,
        {
            proof {
                lemma_gcd_halve((m / 2) as nat, n as nat);
            }
            m /= 2;
            if !even(m) {
                break;
            }
        }
    }
    proof {
        lemma_gcd_self(m as nat);
        lemma_gcd_divides(ma, na);
        lemma_pow2_pos(k);
        assert(pow2(0) == 1) by {
            vstd::arithmetic::power2::lemma2_to64();
        }
        assert(odd_gcd <= pow2(k) * odd_gcd) by (nonlinear_arith)
            requires
                pow2(k) >= 1,
        ;
        vstd::arithmetic::div_mod::lemma_fundamental_div_mod(ma as int, gcd_of(ma, na) as int);
        assert(gcd_of(ma, na) <= ma) by (nonlinear_arith)
            requires
                ma == gcd_of(ma, na) * (ma as int / gcd_of(ma, na) as int),
                ma > 0,
                gcd_of(ma, na) > 0,
        ;
    }
    let shift = if d_m <= d_n { d_m } else { d_n };
    let mut i: u32 = 0;
    while i < shift
        invariant
            i <= shift,
            shift == k,
            m == odd_gcd * pow2(i as nat),
            odd_gcd > 0,
            pow2(k) * odd_gcd == gcd_of(ma, na),
            gcd_of(ma, na) <= ma <= i64::MAX,
            m <= gcd_of(ma, na),
        decreases shift - i,
    {
        proof {
            lemma_pow2_unfold((i + 1) as nat);
            if i + 1 < k {
                vstd::arithmetic::power2::lemma_pow2_strictly_increases((i + 1) as nat, k);
            }
            assert(2 * m <= gcd_of(ma, na)) by (nonlinear_arith)
                requires
                    m == odd_gcd * pow2(i as nat),
                    pow2((i + 1) as nat) == 2 * pow2(i as nat),
                    pow2((i + 1) as nat) <= pow2(k),
                    pow2(k) * odd_gcd == gcd_of(ma, na),
                    odd_gcd > 0,
            ;
            assert(m + m == odd_gcd * pow2((i + 1) as nat)) by (nonlinear_arith)
                requires
                    m == odd_gcd * pow2(i as nat),
                    pow2((i + 1) as nat) == 2 * pow2(i as nat),
            ;
        }
        m = m + m;
        i += 1;
    }
    assert(m == gcd_of(ma, na)) by (nonlinear_arith)
        requires
            m == odd_gcd * pow2(k),
            pow2(k) * odd_gcd == gcd_of(ma, na),
    ;
    m as i64
}

} // verus!
